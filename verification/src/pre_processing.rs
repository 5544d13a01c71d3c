//! The semantic resolution stage: name resolution, attribute application,
//! reachability analysis and reference classification, from the typed syntax
//! tree to the dependency-ordered resolved form the layout pass consumes.
use vstd::prelude::*;
use vstd::string::StrSliceExecFns;

use crate::Diagnostic;
use crate::ErrorKind;
use crate::ast::Located;
use crate::ast::RBlock;
use crate::ast::RAttribute;
use crate::ast::RBlockItem;
use crate::ast::RBlockRef;
use crate::ast::RConstant;
use crate::ast::RContract;
use crate::ast::RFile;
use crate::ast::RFunctionArg;
use crate::ast::RVariableOrVariableWithField;
use crate::ast::WithAttributes;
use crate::attributes::Attribute;
use crate::attributes::Attributes;
use crate::attributes::AttrModel;
use crate::attributes::attr_spec;
use crate::attributes::pair_view;
use crate::classify::BlockType;
use crate::classify::RefMode;
use crate::classify::apply_block_ref;
use crate::classify::step_type;
use crate::graph::DedupQueue;
use crate::graph::DependencyTree;
use crate::graph::as_set;
use crate::graph::insert_index;
use crate::graph::insert_sorted;
use crate::graph::lemma_reaches_mono;
use crate::graph::reachable;
use crate::graph::reaches;
use crate::graph::strictly_sorted;
use crate::names::NameTable;
use crate::names::contains_name;
use crate::names::distinct_names;
use crate::names::index_of_name;
use crate::names::is_first_match;
use crate::names::lemma_first_match_is_index;
use crate::raw::bytes_content;
use crate::raw::bytes_from_vec;
use crate::raw::bytes_len;
use crate::raw::str_eq;

verus! {

/// A resolved push operand: literal bytes, or the program counter or byte
/// size of a contract or block, by index, resolved numerically only by the
/// later layout pass.
#[derive(Clone, Debug, PartialEq, Eq)]
pub enum Push {
    Constant(bytes::Bytes),
    ContractPc(usize),
    ContractSize(usize),
    BlockSize(usize),
    BlockPc(usize),
}

/// One resolved instruction of a block.
#[derive(Clone, Debug, PartialEq, Eq)]
pub enum BlockItem {
    /// A maximal run of raw bytes.
    Bytes(bytes::Bytes),
    /// The deployed code of another contract, inlined here.
    Contract(usize),
    /// A block of this contract, inlined here.
    Block(usize),
    /// A push instruction with a symbolic operand.
    Push(Push),
}

/// A resolved block: its instructions, and the sibling blocks they reference.
#[derive(Clone, Debug, PartialEq, Eq)]
pub struct Block {
    pub items: Vec<BlockItem>,
    /// Indices of referenced sibling blocks, strictly sorted.
    pub dependencies: Vec<usize>,
}

/// A resolved contract, keyed by its index in the source contract list.
#[derive(Clone, Debug, PartialEq, Eq)]
pub struct Contract {
    /// Indices of contracts whose code this contract references, strictly sorted.
    pub dependencies: Vec<usize>,
    /// The resolved blocks, keyed by source block index; blocks not reachable
    /// from `main` stay `None`.
    pub blocks: Vec<Option<Block>>,
    /// The index of the entry block, the one named `main`.
    pub main: usize,
    /// The index of the block marked `last`, if one is.
    pub last: Option<usize>,
}

/// The ghost shape of a resolved push operand.
pub enum PushModel {
    Constant(Seq<u8>),
    ContractPc(int),
    ContractSize(int),
    BlockSize(int),
    BlockPc(int),
}

/// The ghost shape of a resolved instruction.
pub enum ItemModel {
    Bytes(Seq<u8>),
    Contract(int),
    Block(int),
    Push(PushModel),
}

pub open spec fn push_view(p: Push) -> PushModel {
    match p {
        Push::Constant(b) => PushModel::Constant(bytes_content(b)),
        Push::ContractPc(i) => PushModel::ContractPc(i as int),
        Push::ContractSize(i) => PushModel::ContractSize(i as int),
        Push::BlockSize(i) => PushModel::BlockSize(i as int),
        Push::BlockPc(i) => PushModel::BlockPc(i as int),
    }
}

pub open spec fn item_view(it: BlockItem) -> ItemModel {
    match it {
        BlockItem::Bytes(b) => ItemModel::Bytes(bytes_content(b)),
        BlockItem::Contract(i) => ItemModel::Contract(i as int),
        BlockItem::Block(i) => ItemModel::Block(i as int),
        BlockItem::Push(p) => ItemModel::Push(push_view(p)),
    }
}

pub open spec fn items_view(s: Seq<BlockItem>) -> Seq<ItemModel> {
    s.map_values(|it: BlockItem| item_view(it))
}

/// The ghost reading of a constant table: name and value of each entry, in
/// source order.
pub open spec fn consts_view(s: Seq<(String, bytes::Bytes)>) -> Seq<(Seq<char>, Seq<u8>)> {
    s.map_values(|p: (String, bytes::Bytes)| pair_view(p))
}

/// The names of a constant table reading.
pub open spec fn const_names(cv: Seq<(Seq<char>, Seq<u8>)>) -> Seq<Seq<char>> {
    cv.map_values(|p: (Seq<char>, Seq<u8>)| p.0)
}

/// The value of the first constant named `n`, if any.
pub open spec fn const_lookup(cv: Seq<(Seq<char>, Seq<u8>)>, n: Seq<char>) -> Option<Seq<u8>> {
    match index_of_name(const_names(cv), n) {
        Some(i) => Some(cv[i].1),
        None => None,
    }
}

/// The constant table of one contract: names mapped to byte values.
pub struct Constants {
    pub entries: Vec<(String, bytes::Bytes)>,
}

impl Constants {
    pub open spec fn view_spec(&self) -> Seq<(Seq<char>, Seq<u8>)> {
        consts_view(self.entries@)
    }

    pub fn new() -> (r: Constants)
        ensures
            r.view_spec() =~= Seq::<(Seq<char>, Seq<u8>)>::empty(),
    {
        Constants { entries: Vec::new() }
    }

    /// The value of the constant named `n`, if this table holds one.
    pub fn get(&self, n: &str) -> (r: Option<bytes::Bytes>)
        ensures
            match r {
                Some(b) => const_lookup(self.view_spec(), n@) == Some(bytes_content(b)),
                None => const_lookup(self.view_spec(), n@) is None,
            },
            (r is Some) == contains_name(const_names(self.view_spec()), n@),
    {
        let len = self.entries.len();
        let mut k: usize = 0;
        proof {
            assert forall|j: int|
                0 <= j < self.entries@.len() implies const_names(self.view_spec())[j]
                == self.entries@[j].0@ by {}
        }
        while k < len
            invariant
                0 <= k <= len,
                len == self.entries@.len(),
                forall|j: int| 0 <= j < self.entries@.len() ==> const_names(self.view_spec())[j]
                    == self.entries@[j].0@,
                forall|j: int| 0 <= j < k ==> const_names(self.view_spec())[j] != n@,
            decreases len - k,
        {
            if str_eq(self.entries[k].0.as_str(), n) {
                proof {
                    lemma_first_match_is_index(const_names(self.view_spec()), n@, k as int);
                    assert(self.view_spec()[k as int].1 == bytes_content(self.entries@[k as int].1));
                    assert(const_names(self.view_spec())[k as int] == n@);
                    assert(contains_name(const_names(self.view_spec()), n@));
                }
                return Some(self.entries[k].1.clone());
            }
            k += 1;
        }
        proof {
            assert(!contains_name(const_names(self.view_spec()), n@));
            crate::names::lemma_index_of_name_props(const_names(self.view_spec()), n@);
        }
        None
    }
}

/// How the constant list of a contract reads, first violation first: a value
/// of 32 bytes or more is too large; a name colliding with a contract name or
/// an earlier constant is a duplicate, reported at its own occurrence.
pub open spec fn scan_constants(cnames: Seq<Seq<char>>, consts: Seq<Located<RConstant>>) -> Result<
    Seq<(Seq<char>, Seq<u8>)>,
    Diagnostic,
>
    decreases consts.len(),
{
    if consts.len() == 0 {
        Ok(Seq::empty())
    } else {
        match scan_constants(cnames, consts.drop_last()) {
            Err(d) => Err(d),
            Ok(acc) => {
                let c = consts.last();
                if bytes_content(c.inner.value.inner.0).len() >= 32 {
                    Err(
                        Diagnostic {
                            kind: ErrorKind::ConstantTooLarge,
                            span: Some(c.inner.value.span),
                        },
                    )
                } else if contains_name(cnames, c.inner.name.inner.0@) || contains_name(
                    const_names(acc),
                    c.inner.name.inner.0@,
                ) {
                    Err(Diagnostic { kind: ErrorKind::DuplicateName, span: Some(c.inner.name.span) })
                } else {
                    Ok(acc.push((c.inner.name.inner.0@, bytes_content(c.inner.value.inner.0))))
                }
            },
        }
    }
}

/// On success the constant namespace is sound: every value fits in 31 bytes,
/// the names are pairwise distinct, and none shadows a contract name.
pub proof fn lemma_scan_constants_ok(
    cnames: Seq<Seq<char>>,
    consts: Seq<Located<RConstant>>,
    acc: Seq<(Seq<char>, Seq<u8>)>,
)
    requires
        scan_constants(cnames, consts) == Ok::<Seq<(Seq<char>, Seq<u8>)>, Diagnostic>(acc),
    ensures
        distinct_names(const_names(acc)),
        forall|j: int| 0 <= j < acc.len() ==> !contains_name(cnames, #[trigger] acc[j].0),
        forall|j: int| 0 <= j < acc.len() ==> (#[trigger] acc[j].1).len() < 32,
    decreases consts.len(),
{
    if consts.len() > 0 {
        let prev = scan_constants(cnames, consts.drop_last());
        let pacc = prev->Ok_0;
        lemma_scan_constants_ok(cnames, consts.drop_last(), pacc);
        assert(acc.drop_last() =~= pacc);
        assert forall|j: int| 0 <= j < acc.len() implies !contains_name(
            cnames,
            #[trigger] acc[j].0,
        ) by {
            if j < acc.len() - 1 {
                assert(acc[j] == pacc[j]);
            }
        }
        assert forall|i: int, j: int|
            0 <= i < j < const_names(acc).len() implies const_names(acc)[i] != const_names(
            acc,
        )[j] by {
            if j < acc.len() - 1 {
                assert(const_names(pacc)[i] == const_names(acc)[i]);
                assert(const_names(pacc)[j] == const_names(acc)[j]);
            } else {
                assert(const_names(pacc)[i] == const_names(acc)[i]);
                if const_names(acc)[i] == const_names(acc)[j] {
                    assert(contains_name(const_names(pacc), acc.last().0));
                }
            }
        }
        assert forall|j: int| 0 <= j < acc.len() implies (#[trigger] acc[j].1).len() < 32 by {
            if j < acc.len() - 1 {
                assert(acc[j] == pacc[j]);
            }
        }
    }
}

/// A violation found in a prefix of the constant list is the verdict on the
/// whole list: scanning stops at the first violation.
pub proof fn lemma_scan_constants_err_persists(
    cnames: Seq<Seq<char>>,
    consts: Seq<Located<RConstant>>,
    i: int,
)
    requires
        0 <= i <= consts.len(),
        scan_constants(cnames, consts.take(i)) is Err,
    ensures
        scan_constants(cnames, consts) == scan_constants(cnames, consts.take(i)),
    decreases consts.len() - i,
{
    if i < consts.len() {
        assert(consts.take(i + 1).drop_last() =~= consts.take(i));
        lemma_scan_constants_err_persists(cnames, consts, i + 1);
    } else {
        assert(consts.take(i) =~= consts);
    }
}

/// Builds the constant table of one contract, validating sizes and the
/// disjointness of the namespace, exactly as `scan_constants` reads the list.
pub fn extract_constants(
    r_constants: &Vec<Located<RConstant>>,
    contract_names: &NameTable,
) -> (r: Result<Constants, Diagnostic>)
    ensures
        match r {
            Ok(c) => scan_constants(contract_names@, r_constants@) == Ok::<
                Seq<(Seq<char>, Seq<u8>)>,
                Diagnostic,
            >(c.view_spec()),
            Err(d) => scan_constants(contract_names@, r_constants@) == Err::<
                Seq<(Seq<char>, Seq<u8>)>,
                Diagnostic,
            >(d),
        },
{
    let mut constants = Constants::new();
    let len = r_constants.len();
    let mut i: usize = 0;
    while i < len
        invariant
            0 <= i <= len,
            len == r_constants@.len(),
            scan_constants(contract_names@, r_constants@.take(i as int)) == Ok::<
                Seq<(Seq<char>, Seq<u8>)>,
                Diagnostic,
            >(constants.view_spec()),
        decreases len - i,
    {
        let rc = &r_constants[i];
        proof {
            assert(r_constants@.take(i + 1).drop_last() =~= r_constants@.take(i as int));
            assert(r_constants@.take(i + 1).last() == r_constants@[i as int]);
        }
        let value_len = bytes_len(&rc.inner.value.inner.0);
        if value_len >= 32 {
            proof {
                lemma_scan_constants_err_persists(contract_names@, r_constants@, i + 1);
            }
            return Err(Diagnostic::new(ErrorKind::ConstantTooLarge, rc.inner.value.span));
        }
        let name = rc.inner.name.inner.as_str();
        if contract_names.lookup(name).is_some() || constants.get(name).is_some() {
            proof {
                lemma_scan_constants_err_persists(contract_names@, r_constants@, i + 1);
            }
            return Err(Diagnostic::new(ErrorKind::DuplicateName, rc.inner.name.span));
        }
        let ghost pre = constants.entries@;
        constants.entries.push((name.to_owned(), rc.inner.value.inner.0.clone()));
        proof {
            assert(consts_view(constants.entries@) =~= consts_view(pre).push(
                (rc.inner.name.inner.0@, bytes_content(rc.inner.value.inner.0)),
            ));
        }
        i += 1;
    }
    proof {
        assert(r_constants@.take(len as int) =~= r_constants@);
    }
    Ok(constants)
}


/// The state the item fold of one block threads: the resolved items emitted
/// so far, the pending raw-byte run, the classification table of all sibling
/// blocks, and the dependency sets collected so far.
#[verifier::ext_equal]
pub struct BState {
    pub items: Seq<ItemModel>,
    pub cur: Option<Seq<u8>>,
    pub types: Seq<BlockType>,
    pub bdeps: Seq<usize>,
    pub cdeps: Seq<usize>,
}

/// The emitted items once the pending byte run, if any, is flushed.
pub open spec fn flushed(st: BState) -> Seq<ItemModel> {
    match st.cur {
        None => st.items,
        Some(b) => st.items.push(ItemModel::Bytes(b)),
    }
}

/// The state after flushing the pending byte run.
pub open spec fn flush_state(st: BState) -> BState {
    BState { items: flushed(st), cur: None, types: st.types, bdeps: st.bdeps, cdeps: st.cdeps }
}

/// The recognized push operation, its name compared without case: `push`.
pub open spec fn is_push_name(n: Seq<char>) -> bool {
    &&& n.len() == 4
    &&& (n[0] == 'p' || n[0] == 'P')
    &&& (n[1] == 'u' || n[1] == 'U')
    &&& (n[2] == 's' || n[2] == 'S')
    &&& (n[3] == 'h' || n[3] == 'H')
}

/// Whether `n` names the push operation, compared without case.
pub fn push_name_matches(n: &str) -> (r: bool)
    ensures
        r == is_push_name(n@),
{
    if n.unicode_len() != 4 {
        return false;
    }
    let c0 = n.get_char(0);
    let c1 = n.get_char(1);
    let c2 = n.get_char(2);
    let c3 = n.get_char(3);
    (c0 == 'p' || c0 == 'P') && (c1 == 'u' || c1 == 'U') && (c2 == 's' || c2 == 'S') && (c3 == 'h'
        || c3 == 'H')
}

/// How one block item transforms the fold state, or the first violation it
/// raises. A raw literal extends the pending byte run; every other item first
/// flushes it, so that adjacent literals coalesce into one maximal run.
pub open spec fn block_step(
    cnames: Seq<Seq<char>>,
    bnames: Seq<Seq<char>>,
    consts: Seq<(Seq<char>, Seq<u8>)>,
    st: BState,
    it: Located<RBlockItem>,
) -> Result<BState, Diagnostic> {
    match it.inner {
        RBlockItem::HexLitteral(h) => Ok(
            BState {
                items: st.items,
                cur: Some(
                    match st.cur {
                        None => bytes_content(h.0),
                        Some(c) => c + bytes_content(h.0),
                    },
                ),
                types: st.types,
                bdeps: st.bdeps,
                cdeps: st.cdeps,
            },
        ),
        RBlockItem::BlockRef(RBlockRef::Star(v)) => {
            let st1 = flush_state(st);
            match index_of_name(bnames, v.0@) {
                None => Err(Diagnostic { kind: ErrorKind::BlockNotFound, span: Some(it.span) }),
                Some(bi) => match step_type(st1.types[bi], RefMode::Star) {
                    None => Err(
                        Diagnostic { kind: ErrorKind::AddressingConflict, span: Some(it.span) },
                    ),
                    Some(u) => Ok(
                        BState {
                            items: st1.items.push(ItemModel::Block(bi)),
                            cur: None,
                            types: st1.types.update(bi, u),
                            bdeps: insert_sorted(st1.bdeps, bi as usize),
                            cdeps: st1.cdeps,
                        },
                    ),
                },
            }
        },
        RBlockItem::BlockRef(RBlockRef::Esp(RVariableOrVariableWithField::Variable(v))) => {
            let st1 = flush_state(st);
            match index_of_name(bnames, v.0@) {
                None => Err(Diagnostic { kind: ErrorKind::BlockNotFound, span: Some(it.span) }),
                Some(bi) => match step_type(st1.types[bi], RefMode::Esp) {
                    None => Err(
                        Diagnostic { kind: ErrorKind::AddressingConflict, span: Some(it.span) },
                    ),
                    Some(u) => Ok(
                        BState {
                            items: st1.items,
                            cur: None,
                            types: st1.types.update(bi, u),
                            bdeps: insert_sorted(st1.bdeps, bi as usize),
                            cdeps: st1.cdeps,
                        },
                    ),
                },
            }
        },
        RBlockItem::BlockRef(
            RBlockRef::Esp(RVariableOrVariableWithField::VariableWithField(vwf)),
        ) => {
            let st1 = flush_state(st);
            if vwf.field.inner.0@ != "code"@ {
                Err(Diagnostic { kind: ErrorKind::UnknownField, span: Some(vwf.field.span) })
            } else {
                match index_of_name(cnames, vwf.variable.inner.0@) {
                    None => Err(
                        Diagnostic {
                            kind: ErrorKind::ContractNotFound,
                            span: Some(vwf.variable.span),
                        },
                    ),
                    Some(ci) => Ok(
                        BState {
                            items: st1.items.push(ItemModel::Contract(ci)),
                            cur: None,
                            types: st1.types,
                            bdeps: st1.bdeps,
                            cdeps: insert_sorted(st1.cdeps, ci as usize),
                        },
                    ),
                }
            }
        },
        RBlockItem::Variable(_) => Ok(flush_state(st)),
        RBlockItem::Function(f) => {
            let st1 = flush_state(st);
            if !is_push_name(f.name.inner.0@) {
                Err(Diagnostic { kind: ErrorKind::UnknownFunction, span: Some(f.name.span) })
            } else {
                match f.arg.inner {
                    RFunctionArg::HexLitteral(h) => Ok(
                        BState {
                            items: st1.items.push(
                                ItemModel::Push(PushModel::Constant(bytes_content(h.0))),
                            ),
                            cur: None,
                            types: st1.types,
                            bdeps: st1.bdeps,
                            cdeps: st1.cdeps,
                        },
                    ),
                    RFunctionArg::Variable(v) => match const_lookup(consts, v.0@) {
                        None => Err(
                            Diagnostic {
                                kind: ErrorKind::ConstantNotFound,
                                span: Some(f.arg.span),
                            },
                        ),
                        Some(val) => Ok(
                            BState {
                                items: st1.items.push(ItemModel::Push(PushModel::Constant(val))),
                                cur: None,
                                types: st1.types,
                                bdeps: st1.bdeps,
                                cdeps: st1.cdeps,
                            },
                        ),
                    },
                    RFunctionArg::VariableWithField(vwf) => {
                        if vwf.field.inner.0@ == "pc"@ {
                            match index_of_name(cnames, vwf.variable.inner.0@) {
                                Some(ci) => Ok(
                                    BState {
                                        items: st1.items.push(
                                            ItemModel::Push(PushModel::ContractPc(ci)),
                                        ),
                                        cur: None,
                                        types: st1.types,
                                        bdeps: st1.bdeps,
                                        cdeps: insert_sorted(st1.cdeps, ci as usize),
                                    },
                                ),
                                None => match index_of_name(bnames, vwf.variable.inner.0@) {
                                    Some(bi) => match step_type(st1.types[bi], RefMode::Esp) {
                                        None => Err(
                                            Diagnostic {
                                                kind: ErrorKind::AddressingConflict,
                                                span: Some(it.span),
                                            },
                                        ),
                                        Some(u) => Ok(
                                            BState {
                                                items: st1.items.push(
                                                    ItemModel::Push(PushModel::BlockPc(bi)),
                                                ),
                                                cur: None,
                                                types: st1.types.update(bi, u),
                                                bdeps: insert_sorted(st1.bdeps, bi as usize),
                                                cdeps: st1.cdeps,
                                            },
                                        ),
                                    },
                                    None => Err(
                                        Diagnostic {
                                            kind: ErrorKind::PushTargetNotFound,
                                            span: Some(vwf.variable.span),
                                        },
                                    ),
                                },
                            }
                        } else if vwf.field.inner.0@ == "size"@ {
                            match index_of_name(cnames, vwf.variable.inner.0@) {
                                Some(ci) => Ok(
                                    BState {
                                        items: st1.items.push(
                                            ItemModel::Push(PushModel::ContractSize(ci)),
                                        ),
                                        cur: None,
                                        types: st1.types,
                                        bdeps: st1.bdeps,
                                        cdeps: insert_sorted(st1.cdeps, ci as usize),
                                    },
                                ),
                                None => match index_of_name(bnames, vwf.variable.inner.0@) {
                                    Some(bi) => match step_type(st1.types[bi], RefMode::Esp) {
                                        None => Err(
                                            Diagnostic {
                                                kind: ErrorKind::AddressingConflict,
                                                span: Some(it.span),
                                            },
                                        ),
                                        Some(u) => Ok(
                                            BState {
                                                items: st1.items.push(
                                                    ItemModel::Push(PushModel::BlockSize(bi)),
                                                ),
                                                cur: None,
                                                types: st1.types.update(bi, u),
                                                bdeps: insert_sorted(st1.bdeps, bi as usize),
                                                cdeps: st1.cdeps,
                                            },
                                        ),
                                    },
                                    None => Err(
                                        Diagnostic {
                                            kind: ErrorKind::PushTargetNotFound,
                                            span: Some(vwf.variable.span),
                                        },
                                    ),
                                },
                            }
                        } else {
                            Err(
                                Diagnostic {
                                    kind: ErrorKind::UnknownField,
                                    span: Some(vwf.field.span),
                                },
                            )
                        }
                    },
                }
            }
        },
    }
}

/// The fold of a whole item list, stopping at the first violation.
pub open spec fn block_run(
    cnames: Seq<Seq<char>>,
    bnames: Seq<Seq<char>>,
    consts: Seq<(Seq<char>, Seq<u8>)>,
    st0: BState,
    items: Seq<Located<RBlockItem>>,
) -> Result<BState, Diagnostic>
    decreases items.len(),
{
    if items.len() == 0 {
        Ok(st0)
    } else {
        match block_run(cnames, bnames, consts, st0, items.drop_last()) {
            Err(d) => Err(d),
            Ok(st) => block_step(cnames, bnames, consts, st, items.last()),
        }
    }
}

/// The state every block's fold starts from: nothing emitted, no pending run,
/// the classification table and contract dependencies as the traversal left
/// them so far.
pub open spec fn init_bstate(types: Seq<BlockType>, cdeps: Seq<usize>) -> BState {
    BState { items: Seq::empty(), cur: None, types, bdeps: Seq::empty(), cdeps }
}

/// The fold stopped at item `i`: the prefix before it ran clean to the state
/// the two `&mut` parameters were left in, and item `i` raised `d`.
#[verifier::opaque]
pub open spec fn block_err_state(
    cnames: Seq<Seq<char>>,
    bnames: Seq<Seq<char>>,
    consts: Seq<(Seq<char>, Seq<u8>)>,
    st0: BState,
    items: Seq<Located<RBlockItem>>,
    d: Diagnostic,
    types2: Seq<BlockType>,
    cdeps2: Seq<usize>,
) -> bool {
    exists|i: int|
        {
            &&& 0 <= i < items.len()
            &&& (#[trigger] block_run(cnames, bnames, consts, st0, items.take(i))) matches Ok(sti)
            &&& block_step(cnames, bnames, consts, sti, items[i]) == Err::<BState, Diagnostic>(d)
            &&& types2 == sti.types
            &&& cdeps2 == sti.cdeps
        }
}

/// The item at `i` raised `d` after a clean prefix: the whole fold raises `d`,
/// and the threaded state stands where the prefix left it.
pub proof fn lemma_block_err_at(
    cnames: Seq<Seq<char>>,
    bnames: Seq<Seq<char>>,
    consts: Seq<(Seq<char>, Seq<u8>)>,
    st0: BState,
    items: Seq<Located<RBlockItem>>,
    i: int,
    d: Diagnostic,
)
    requires
        0 <= i < items.len(),
        block_run(cnames, bnames, consts, st0, items.take(i)) is Ok,
        block_step(
            cnames,
            bnames,
            consts,
            block_run(cnames, bnames, consts, st0, items.take(i))->Ok_0,
            items[i],
        ) == Err::<BState, Diagnostic>(d),
    ensures
        block_run(cnames, bnames, consts, st0, items) == Err::<BState, Diagnostic>(d),
        block_err_state(
            cnames,
            bnames,
            consts,
            st0,
            items,
            d,
            block_run(cnames, bnames, consts, st0, items.take(i))->Ok_0.types,
            block_run(cnames, bnames, consts, st0, items.take(i))->Ok_0.cdeps,
        ),
{
    assert(items.take(i + 1).drop_last() =~= items.take(i));
    assert(items.take(i + 1).last() == items[i]);
    lemma_block_run_err_persists(cnames, bnames, consts, st0, items, i + 1);
    let sti = block_run(cnames, bnames, consts, st0, items.take(i))->Ok_0;
    assert(block_err_state(cnames, bnames, consts, st0, items, d, sti.types, sti.cdeps)) by {
        reveal(block_err_state);
    }
}

/// A violation in a prefix of the item list is the verdict on the whole list.
pub proof fn lemma_block_run_err_persists(
    cnames: Seq<Seq<char>>,
    bnames: Seq<Seq<char>>,
    consts: Seq<(Seq<char>, Seq<u8>)>,
    st0: BState,
    items: Seq<Located<RBlockItem>>,
    i: int,
)
    requires
        0 <= i <= items.len(),
        block_run(cnames, bnames, consts, st0, items.take(i)) is Err,
    ensures
        block_run(cnames, bnames, consts, st0, items) == block_run(
            cnames,
            bnames,
            consts,
            st0,
            items.take(i),
        ),
    decreases items.len() - i,
{
    if i < items.len() {
        assert(items.take(i + 1).drop_last() =~= items.take(i));
        lemma_block_run_err_persists(cnames, bnames, consts, st0, items, i + 1);
    } else {
        assert(items.take(i) =~= items);
    }
}

/// Coalescing: two consecutive raw byte literals act exactly as the single
/// literal holding their concatenation, so they appear in the resolved output
/// as one contiguous run, never two.
pub proof fn lemma_coalescing(
    cnames: Seq<Seq<char>>,
    bnames: Seq<Seq<char>>,
    consts: Seq<(Seq<char>, Seq<u8>)>,
    st: BState,
    h1: Located<RBlockItem>,
    h2: Located<RBlockItem>,
    h12: Located<RBlockItem>,
)
    requires
        h1.inner is HexLitteral,
        h2.inner is HexLitteral,
        h12.inner is HexLitteral,
        bytes_content(h12.inner->HexLitteral_0.0) == bytes_content(h1.inner->HexLitteral_0.0)
            + bytes_content(h2.inner->HexLitteral_0.0),
    ensures
        block_step(cnames, bnames, consts, st, h1) matches Ok(mid) && block_step(
            cnames,
            bnames,
            consts,
            mid,
            h2,
        ) == block_step(cnames, bnames, consts, st, h12),
{
    let mid = block_step(cnames, bnames, consts, st, h1)->Ok_0;
    let two = block_step(cnames, bnames, consts, mid, h2)->Ok_0;
    let one = block_step(cnames, bnames, consts, st, h12)->Ok_0;
    match st.cur {
        None => {
            assert(two.cur->Some_0 =~= one.cur->Some_0);
        },
        Some(c) => {
            assert(two.cur->Some_0 =~= one.cur->Some_0);
        },
    }
    assert(two =~= one);
}

/// Flushes the pending raw-byte run, if any, into the emitted items.
fn flush_pending(items: &mut Vec<BlockItem>, current: &mut Vec<u8>, has: &mut bool)
    ensures
        *final(has) == false,
        *old(has) ==> items_view(final(items)@) == items_view(old(items)@).push(
            ItemModel::Bytes(old(current)@),
        ) && final(current)@ =~= Seq::<u8>::empty(),
        !*old(has) ==> final(items)@ == old(items)@ && final(current)@ == old(current)@,
{
    if *has {
        let mut tmp: Vec<u8> = Vec::new();
        core::mem::swap(&mut tmp, current);
        items.push(BlockItem::Bytes(bytes_from_vec(tmp)));
        *has = false;
        proof {
            assert(items_view(items@) =~= items_view(old(items)@).push(
                ItemModel::Bytes(old(current)@),
            ));
        }
    }
}





/// A resolved block, read as ghost data: its instruction readings and the
/// sibling indices it references, in sorted order.
#[verifier::ext_equal]
pub struct ResolvedBlock {
    pub items: Seq<ItemModel>,
    pub deps: Seq<usize>,
}

pub open spec fn block_model(b: Block) -> ResolvedBlock {
    ResolvedBlock { items: items_view(b.items@), deps: b.dependencies@ }
}

pub open spec fn blocks_model(s: Seq<Option<Block>>) -> Seq<Option<ResolvedBlock>> {
    s.map_values(
        |o: Option<Block>|
            match o {
                Some(b) => Some(block_model(b)),
                None => None,
            },
    )
}

/// Appends to the work queue, in order, the dependencies it has not seen yet.
pub open spec fn enqueue_new(queue: Seq<usize>, deps: Seq<usize>) -> Seq<usize>
    decreases deps.len(),
{
    if deps.len() == 0 {
        queue
    } else {
        let q1 = if queue.contains(deps.first()) {
            queue
        } else {
            queue.push(deps.first())
        };
        enqueue_new(q1, deps.skip(1))
    }
}

/// No resolved blocks, one slot per source block.
pub open spec fn none_blocks(n: int) -> Seq<Option<ResolvedBlock>> {
    Seq::new(n as nat, |i: int| None)
}

/// Every block unused, but the entry block pre-assigned the inline role.
pub open spec fn initial_types(n: int, main: int) -> Seq<BlockType> {
    Seq::new(n as nat, |i: int| BlockType::Unused).update(main, BlockType::Star)
}

/// The block traversal, step by step as the work queue runs: pop the next
/// index, fold that block's items through the threaded classification and
/// dependency state, record it, and enqueue its unseen dependencies. One unit
/// of fuel is spent per pop; the number of source blocks is always enough,
/// since the queue holds each index at most once.
#[verifier::opaque]
pub open spec fn resolve_blocks_spec(
    cnames: Seq<Seq<char>>,
    bnames: Seq<Seq<char>>,
    consts: Seq<(Seq<char>, Seq<u8>)>,
    blocks_src: Seq<Located<WithAttributes<RBlock>>>,
    queue: Seq<usize>,
    head: int,
    out: Seq<Option<ResolvedBlock>>,
    types: Seq<BlockType>,
    cdeps: Seq<usize>,
    fuel: nat,
) -> Result<(Seq<Option<ResolvedBlock>>, Seq<usize>), Diagnostic>
    decreases fuel,
{
    if head >= queue.len() || fuel == 0 || !(0 <= head) {
        Ok((out, cdeps))
    } else {
        let b = queue[head];
        if b >= blocks_src.len() {
            Ok((out, cdeps))
        } else {
            match block_run(
                cnames,
                bnames,
                consts,
                init_bstate(types, cdeps),
                blocks_src[b as int].inner.inner.inner.items@,
            ) {
                Err(d) => Err(d),
                Ok(st) => resolve_blocks_spec(
                    cnames,
                    bnames,
                    consts,
                    blocks_src,
                    enqueue_new(queue, st.bdeps),
                    head + 1,
                    out.update(b as int, Some(ResolvedBlock { items: flushed(st), deps: st.bdeps })),
                    st.types,
                    st.cdeps,
                    (fuel - 1) as nat,
                ),
            }
        }
    }
}

/// What resolving one contract returns, phase by phase: the constant scan,
/// the block-namespace scan, the entry-block check, then the block traversal
/// from `main`.
#[verifier::opaque]
pub open spec fn resolve_contract_spec(
    cnames: Seq<Seq<char>>,
    rcl: Located<WithAttributes<RContract>>,
) -> Result<ContractModel, Diagnostic> {
    let rc = rcl.inner.inner.inner;
    match scan_constants(cnames, rc.constants@) {
        Err(d) => Err(d),
        Ok(cv) => match scan_blocks(cnames, const_names(cv), rc.blocks@) {
            Err(d) => Err(d),
            Ok((names, main_opt, last)) => match main_opt {
                None => Err(
                    Diagnostic { kind: ErrorKind::MainBlockNotFound, span: Some(rc.name.span) },
                ),
                Some(m) => {
                    let n = rc.blocks@.len() as int;
                    match resolve_blocks_spec(
                        cnames,
                        names,
                        cv,
                        rc.blocks@,
                        seq![m as usize],
                        0,
                        none_blocks(n),
                        initial_types(n, m),
                        Seq::empty(),
                        n as nat,
                    ) {
                        Err(d) => Err(d),
                        Ok(t) => Ok(ContractModel { blocks: t.0, deps: t.1, main: m, last }),
                    }
                },
            },
        },
    }
}

/// A resolved contract, read as ghost data.
#[verifier::ext_equal]
pub struct ContractModel {
    pub blocks: Seq<Option<ResolvedBlock>>,
    pub deps: Seq<usize>,
    pub main: int,
    pub last: Option<int>,
}

pub open spec fn contract_model(c: Contract) -> ContractModel {
    ContractModel {
        blocks: blocks_model(c.blocks@),
        deps: c.dependencies@,
        main: c.main as int,
        last: opt_index(c.last),
    }
}

/// Resolves one push-style function-call item against the current fold state:
/// exactly one step of `block_step`, with the pending byte run already
/// flushed by the caller.
#[verifier::loop_isolation(false)]
#[verifier::rlimit(100)]
#[verifier::spinoff_prover]
fn process_function_item(
    it: &Located<RBlockItem>,
    constants: &Constants,
    contract_names: &NameTable,
    block_names: &NameTable,
    items: &mut Vec<BlockItem>,
    block_dependencies: &mut Vec<usize>,
    contract_dependencies: &mut Vec<usize>,
    block_types: &mut Vec<BlockType>,
) -> (r: Result<(), Diagnostic>)
    requires
        it.inner is Function,
        strictly_sorted(old(block_dependencies)@),
        strictly_sorted(old(contract_dependencies)@),
        block_names@.len() == old(block_types)@.len(),
        forall|x: usize| as_set(old(block_dependencies)@).contains(x) ==> x < block_names@.len(),
        forall|x: usize| as_set(old(contract_dependencies)@).contains(x) ==> x
            < contract_names@.len(),
    ensures
        strictly_sorted(final(block_dependencies)@),
        strictly_sorted(final(contract_dependencies)@),
        final(block_types)@.len() == old(block_types)@.len(),
        forall|x: usize| as_set(final(block_dependencies)@).contains(x) ==> x
            < block_names@.len(),
        forall|x: usize| as_set(final(contract_dependencies)@).contains(x) ==> x
            < contract_names@.len(),
        ({
            let st = BState {
                items: items_view(old(items)@),
                cur: None,
                types: old(block_types)@,
                bdeps: old(block_dependencies)@,
                cdeps: old(contract_dependencies)@,
            };
            match block_step(contract_names@, block_names@, constants.view_spec(), st, *it) {
                Ok(ns) => r is Ok && ns == (BState {
                    items: items_view(final(items)@),
                    cur: None,
                    types: final(block_types)@,
                    bdeps: final(block_dependencies)@,
                    cdeps: final(contract_dependencies)@,
                }),
                Err(d) => r == Err::<(), Diagnostic>(d) && final(items)@ == old(items)@
                    && final(block_types)@ == old(block_types)@
                    && final(block_dependencies)@ == old(block_dependencies)@
                    && final(contract_dependencies)@ == old(contract_dependencies)@,
            }
        }),
{
    let ghost cn = contract_names@;
    let ghost bn = block_names@;
    let ghost cv = constants.view_spec();
    let ghost prev = BState {
        items: items_view(items@),
        cur: None,
        types: block_types@,
        bdeps: block_dependencies@,
        cdeps: contract_dependencies@,
    };
    let f = match &it.inner {
        RBlockItem::Function(f) => f,
        _ => {
            proof {
                assert(false);
            }
            return Ok(());
        },
    };
    if !push_name_matches(f.name.inner.as_str()) {
        return Err(Diagnostic { kind: ErrorKind::UnknownFunction, span: Some(f.name.span) });
    }
    let push_val: Push = match &f.arg.inner {
        RFunctionArg::HexLitteral(h) => Push::Constant(h.0.clone()),
        RFunctionArg::Variable(v) => {
            let looked = constants.get(v.as_str());
            match looked {
                None => {
                    return Err(
                        Diagnostic { kind: ErrorKind::ConstantNotFound, span: Some(f.arg.span) },
                    );
                },
                Some(b) => Push::Constant(b),
            }
        },
        RFunctionArg::VariableWithField(vwf) => {
            let is_pc = str_eq(vwf.field.inner.as_str(), "pc");
            let is_size = str_eq(vwf.field.inner.as_str(), "size");
            if !is_pc && !is_size {
                return Err(
                    Diagnostic { kind: ErrorKind::UnknownField, span: Some(vwf.field.span) },
                );
            }
            let looked_c = contract_names.lookup(vwf.variable.inner.as_str());
            match looked_c {
                Some(ci) => {
                    insert_index(contract_dependencies, ci);
                    if is_pc {
                        Push::ContractPc(ci)
                    } else {
                        Push::ContractSize(ci)
                    }
                },
                None => {
                    let looked_b = block_names.lookup(vwf.variable.inner.as_str());
                    match looked_b {
                        Some(bi) => {
                            let ok = apply_block_ref(block_types, bi, RefMode::Esp);
                            if !ok {
                                return Err(
                                    Diagnostic {
                                        kind: ErrorKind::AddressingConflict,
                                        span: Some(it.span),
                                    },
                                );
                            }
                            insert_index(block_dependencies, bi);
                            if is_pc {
                                Push::BlockPc(bi)
                            } else {
                                Push::BlockSize(bi)
                            }
                        },
                        None => {
                            return Err(
                                Diagnostic {
                                    kind: ErrorKind::PushTargetNotFound,
                                    span: Some(vwf.variable.span),
                                },
                            );
                        },
                    }
                },
            }
        },
    };
    items.push(BlockItem::Push(push_val));
    proof {
        let ns = block_step(cn, bn, cv, prev, *it)->Ok_0;
        assert(items_view(items@) =~= prev.items.push(ItemModel::Push(push_view(push_val))));
        assert(ns =~= BState {
            items: items_view(items@),
            cur: None,
            types: block_types@,
            bdeps: block_dependencies@,
            cdeps: contract_dependencies@,
        });
    }
    Ok(())
}

/// Resolves one block: folds its items into resolved instructions, records
/// the block- and contract-level dependencies they mention, and advances the
/// classification of every sibling block referenced, exactly as `block_run`
/// reads the item list; stops at the first violation with its diagnostic.
#[verifier::loop_isolation(false)]
pub fn pre_process_block(
    r_block_with_attr: &Located<WithAttributes<RBlock>>,
    constants: &Constants,
    contract_dependencies: &mut Vec<usize>,
    contract_names: &NameTable,
    block_names: &NameTable,
    block_types: &mut Vec<BlockType>,
) -> (r: Result<Block, Diagnostic>)
    requires
        strictly_sorted(old(contract_dependencies)@),
        block_names@.len() == old(block_types)@.len(),
        forall|x: usize| as_set(old(contract_dependencies)@).contains(x) ==> x
            < contract_names@.len(),
    ensures
        strictly_sorted(final(contract_dependencies)@),
        final(block_types)@.len() == old(block_types)@.len(),
        forall|x: usize| as_set(final(contract_dependencies)@).contains(x) ==> x
            < contract_names@.len(),
        ({
            let run = block_run(
                contract_names@,
                block_names@,
                constants.view_spec(),
                init_bstate(old(block_types)@, old(contract_dependencies)@),
                r_block_with_attr.inner.inner.inner.items@,
            );
            match r {
                Ok(b) => run matches Ok(st) && (items_view(b.items@) == flushed(st)
                    && b.dependencies@ == st.bdeps && strictly_sorted(b.dependencies@)
                    && final(block_types)@ == st.types && final(contract_dependencies)@ == st.cdeps && (forall|x: usize|
                    as_set(b.dependencies@).contains(x) ==> x < block_names@.len())),
                Err(d) => run == Err::<BState, Diagnostic>(d) && block_err_state(
                    contract_names@,
                    block_names@,
                    constants.view_spec(),
                    init_bstate(old(block_types)@, old(contract_dependencies)@),
                    r_block_with_attr.inner.inner.inner.items@,
                    d,
                    final(block_types)@,
                    final(contract_dependencies)@,
                ),
            }
        }),
{
    let r_block = r_block_with_attr.inner.inner();
    let ghost cn = contract_names@;
    let ghost bn = block_names@;
    let ghost cv = constants.view_spec();
    let ghost init = init_bstate(old(block_types)@, old(contract_dependencies)@);
    let ghost src = r_block_with_attr.inner.inner.inner.items@;
    proof {
        assert(r_block.items@ == src);
    }

    let num_items = r_block.items.len();
    let mut items: Vec<BlockItem> = Vec::new();
    let mut block_dependencies: Vec<usize> = Vec::new();
    let mut current_bytes: Vec<u8> = Vec::new();
    let mut has_current: bool = false;

    proof {
        assert(src.take(0) =~= Seq::<Located<RBlockItem>>::empty());
        assert(items_view(items@) =~= Seq::<ItemModel>::empty());
        assert(init =~= BState {
            items: items_view(items@),
            cur: None,
            types: block_types@,
            bdeps: block_dependencies@,
            cdeps: contract_dependencies@,
        });
    }
    let mut i: usize = 0;
    while i < num_items
        invariant
            0 <= i <= num_items,
            num_items == src.len(),
            r_block.items@ == src,
            strictly_sorted(contract_dependencies@),
            strictly_sorted(block_dependencies@),
            forall|x: usize| as_set(block_dependencies@).contains(x) ==> x < bn.len(),
            forall|x: usize| as_set(contract_dependencies@).contains(x) ==> x < cn.len(),
            block_types@.len() == bn.len(),
            block_names@.len() == bn.len(),
            !has_current ==> current_bytes@.len() == 0,
            block_run(cn, bn, cv, init, src.take(i as int)) == Ok::<BState, Diagnostic>(
                BState {
                    items: items_view(items@),
                    cur: if has_current {
                        Some(current_bytes@)
                    } else {
                        None
                    },
                    types: block_types@,
                    bdeps: block_dependencies@,
                    cdeps: contract_dependencies@,
                },
            ),
        decreases num_items - i,
    {
        let it = &r_block.items[i];
        let ghost prev = BState {
            items: items_view(items@),
            cur: if has_current {
                Some(current_bytes@)
            } else {
                None
            },
            types: block_types@,
            bdeps: block_dependencies@,
            cdeps: contract_dependencies@,
        };
        proof {
            assert(src.take(i + 1).drop_last() =~= src.take(i as int));
            assert(src.take(i + 1).last() == src[i as int]);
        }
        match &it.inner {
            RBlockItem::HexLitteral(h) => {
                let mut newv = crate::raw::bytes_to_vec(&h.0);
                current_bytes.append(&mut newv);
                has_current = true;
                proof {
                    let ns = block_step(cn, bn, cv, prev, src[i as int])->Ok_0;
                    assert(ns.cur->Some_0 =~= current_bytes@);
                    assert(ns =~= BState {
                        items: items_view(items@),
                        cur: Some(current_bytes@),
                        types: block_types@,
                        bdeps: block_dependencies@,
                        cdeps: contract_dependencies@,
                    });
                }
            },
            RBlockItem::BlockRef(rr) => {
                flush_pending(&mut items, &mut current_bytes, &mut has_current);
                proof {
                    assert(items_view(items@) == flushed(prev));
                }
                match rr {
                    RBlockRef::Star(v) => {
                        let looked = block_names.lookup(v.as_str());
                        match looked {
                            None => {
                                proof {
                                    lemma_block_err_at(cn, bn, cv, init, src, i as int, (Diagnostic { kind: ErrorKind::BlockNotFound, span: Some(it.span), }));
                                }
                                return Err(
                                    (Diagnostic { kind: ErrorKind::BlockNotFound, span: Some(it.span), }),
                                );
                            },
                            Some(bi) => {
                                let ok = apply_block_ref(block_types, bi, RefMode::Star);
                                if !ok {
                                    proof {
                                        lemma_block_err_at(cn, bn, cv, init, src, i as int, (Diagnostic { kind: ErrorKind::AddressingConflict, span: Some(it.span), }));
                                    }
                                    return Err(
                                        (Diagnostic { kind: ErrorKind::AddressingConflict, span: Some(it.span), }),
                                    );
                                }
                                insert_index(&mut block_dependencies, bi);
                                items.push(BlockItem::Block(bi));
                                proof {
                                    let ns = block_step(cn, bn, cv, prev, src[i as int])->Ok_0;
                                    assert(items_view(items@) =~= flushed(prev).push(
                                        ItemModel::Block(bi as int),
                                    ));
                                    assert(ns =~= BState {
                                        items: items_view(items@),
                                        cur: None,
                                        types: block_types@,
                                        bdeps: block_dependencies@,
                                        cdeps: contract_dependencies@,
                                    });
                                }
                            },
                        }
                    },
                    RBlockRef::Esp(RVariableOrVariableWithField::Variable(v)) => {
                        let looked = block_names.lookup(v.as_str());
                        match looked {
                            None => {
                                proof {
                                    lemma_block_err_at(cn, bn, cv, init, src, i as int, (Diagnostic { kind: ErrorKind::BlockNotFound, span: Some(it.span), }));
                                }
                                return Err(
                                    (Diagnostic { kind: ErrorKind::BlockNotFound, span: Some(it.span), }),
                                );
                            },
                            Some(bi) => {
                                let ok = apply_block_ref(block_types, bi, RefMode::Esp);
                                if !ok {
                                    proof {
                                        lemma_block_err_at(cn, bn, cv, init, src, i as int, (Diagnostic { kind: ErrorKind::AddressingConflict, span: Some(it.span), }));
                                    }
                                    return Err(
                                        (Diagnostic { kind: ErrorKind::AddressingConflict, span: Some(it.span), }),
                                    );
                                }
                                insert_index(&mut block_dependencies, bi);
                                proof {
                                    let ns = block_step(cn, bn, cv, prev, src[i as int])->Ok_0;
                                    assert(ns =~= BState {
                                        items: items_view(items@),
                                        cur: None,
                                        types: block_types@,
                                        bdeps: block_dependencies@,
                                        cdeps: contract_dependencies@,
                                    });
                                }
                            },
                        }
                    },
                    RBlockRef::Esp(RVariableOrVariableWithField::VariableWithField(vwf)) => {
                        if !str_eq(vwf.field.inner.as_str(), "code") {
                            proof {
                                lemma_block_err_at(cn, bn, cv, init, src, i as int, (Diagnostic { kind: ErrorKind::UnknownField, span: Some(vwf.field.span), }));
                            }
                            return Err(
                                (Diagnostic { kind: ErrorKind::UnknownField, span: Some(vwf.field.span), }),
                            );
                        }
                        let looked = contract_names.lookup(vwf.variable.inner.as_str());
                        match looked {
                            None => {
                                proof {
                                    lemma_block_err_at(cn, bn, cv, init, src, i as int, (Diagnostic { kind: ErrorKind::ContractNotFound, span: Some(vwf.variable.span), }));
                                }
                                return Err(
                                    (Diagnostic { kind: ErrorKind::ContractNotFound, span: Some(vwf.variable.span), }),
                                );
                            },
                            Some(ci) => {
                                insert_index(contract_dependencies, ci);
                                items.push(BlockItem::Contract(ci));
                                proof {
                                    let ns = block_step(cn, bn, cv, prev, src[i as int])->Ok_0;
                                    assert(items_view(items@) =~= flushed(prev).push(
                                        ItemModel::Contract(ci as int),
                                    ));
                                    assert(ns =~= BState {
                                        items: items_view(items@),
                                        cur: None,
                                        types: block_types@,
                                        bdeps: block_dependencies@,
                                        cdeps: contract_dependencies@,
                                    });
                                }
                            },
                        }
                    },
                }
            },
            RBlockItem::Variable(_) => {
                flush_pending(&mut items, &mut current_bytes, &mut has_current);
                proof {
                    let ns = block_step(cn, bn, cv, prev, src[i as int])->Ok_0;
                    assert(ns =~= BState {
                        items: items_view(items@),
                        cur: None,
                        types: block_types@,
                        bdeps: block_dependencies@,
                        cdeps: contract_dependencies@,
                    });
                }
            },
            RBlockItem::Function(_) => {
                flush_pending(&mut items, &mut current_bytes, &mut has_current);
                proof {
                    assert(items_view(items@) == flushed(prev));
                }
                let stepped = process_function_item(
                    it,
                    constants,
                    contract_names,
                    block_names,
                    &mut items,
                    &mut block_dependencies,
                    contract_dependencies,
                    block_types,
                );
                match stepped {
                    Err(d) => {
                        proof {
                            lemma_block_err_at(cn, bn, cv, init, src, i as int, d);
                        }
                        return Err(d);
                    },
                    Ok(u) => {
                        proof {
                            let ns = block_step(cn, bn, cv, prev, src[i as int])->Ok_0;
                            assert(ns =~= BState {
                                items: items_view(items@),
                                cur: None,
                                types: block_types@,
                                bdeps: block_dependencies@,
                                cdeps: contract_dependencies@,
                            });
                        }
                    },
                }
            },
        }
        i += 1;
    }
    proof {
        assert(src.take(num_items as int) =~= src);
    }
    let ghost st = block_run(cn, bn, cv, init, src)->Ok_0;
    flush_pending(&mut items, &mut current_bytes, &mut has_current);
    proof {
        assert(items_view(items@) == flushed(st));
    }
    Ok(Block { items, dependencies: block_dependencies })
}



/// An `Option<usize>` read as a ghost index.
pub open spec fn opt_index(o: Option<usize>) -> Option<int> {
    match o {
        Some(i) => Some(i as int),
        None => None,
    }
}

/// How the attribute list of one block reads: an unrecognized annotation is
/// invalid at block level; a second `last` marker in the contract, counting
/// the one already seen, is a duplicate. Returns the updated `last` index.
pub open spec fn scan_block_attrs(
    attrs: Seq<Located<RAttribute>>,
    block_index: int,
    last0: Option<int>,
) -> Result<Option<int>, Diagnostic>
    decreases attrs.len(),
{
    if attrs.len() == 0 {
        Ok(last0)
    } else {
        match scan_block_attrs(attrs.drop_last(), block_index, last0) {
            Err(d) => Err(d),
            Ok(last) => {
                let a = attrs.last();
                match attr_spec(a.inner) {
                    None => Err(
                        Diagnostic { kind: ErrorKind::InvalidBlockAttribute, span: Some(a.span) },
                    ),
                    Some(AttrModel::Last) => {
                        if last is Some {
                            Err(Diagnostic { kind: ErrorKind::DuplicateLast, span: Some(a.span) })
                        } else {
                            Ok(Some(block_index))
                        }
                    },
                    Some(AttrModel::Define(n, v)) => Ok(last),
                }
            },
        }
    }
}

pub proof fn lemma_scan_block_attrs_err_persists(
    attrs: Seq<Located<RAttribute>>,
    block_index: int,
    last0: Option<int>,
    i: int,
)
    requires
        0 <= i <= attrs.len(),
        scan_block_attrs(attrs.take(i), block_index, last0) is Err,
    ensures
        scan_block_attrs(attrs, block_index, last0) == scan_block_attrs(
            attrs.take(i),
            block_index,
            last0,
        ),
    decreases attrs.len() - i,
{
    if i < attrs.len() {
        assert(attrs.take(i + 1).drop_last() =~= attrs.take(i));
        lemma_scan_block_attrs_err_persists(attrs, block_index, last0, i + 1);
    } else {
        assert(attrs.take(i) =~= attrs);
    }
}

/// How the block list of one contract reads: attributes first, then the block
/// name checked against the contract names, the constant names and the block
/// names already seen; a block named `main` becomes the entry block. Returns
/// the block names in order, the entry index and the `last` index.
pub open spec fn scan_blocks(
    cnames: Seq<Seq<char>>,
    constnames: Seq<Seq<char>>,
    blocks: Seq<Located<WithAttributes<RBlock>>>,
) -> Result<(Seq<Seq<char>>, Option<int>, Option<int>), Diagnostic>
    decreases blocks.len(),
{
    if blocks.len() == 0 {
        Ok((Seq::empty(), None, None))
    } else {
        match scan_blocks(cnames, constnames, blocks.drop_last()) {
            Err(d) => Err(d),
            Ok((names, main, last)) => {
                let b = blocks.last();
                let bi = blocks.len() - 1;
                match scan_block_attrs(b.inner.attributes@, bi, last) {
                    Err(d) => Err(d),
                    Ok(last2) => {
                        let nm = b.inner.inner.inner.name.inner.0@;
                        if contains_name(cnames, nm) || contains_name(constnames, nm)
                            || contains_name(names, nm) {
                            Err(
                                Diagnostic {
                                    kind: ErrorKind::DuplicateName,
                                    span: Some(b.inner.inner.inner.name.span),
                                },
                            )
                        } else {
                            Ok(
                                (
                                    names.push(nm),
                                    if nm == "main"@ {
                                        Some(bi)
                                    } else {
                                        main
                                    },
                                    last2,
                                ),
                            )
                        }
                    },
                }
            },
        }
    }
}

pub proof fn lemma_scan_blocks_err_persists(
    cnames: Seq<Seq<char>>,
    constnames: Seq<Seq<char>>,
    blocks: Seq<Located<WithAttributes<RBlock>>>,
    i: int,
)
    requires
        0 <= i <= blocks.len(),
        scan_blocks(cnames, constnames, blocks.take(i)) is Err,
    ensures
        scan_blocks(cnames, constnames, blocks) == scan_blocks(cnames, constnames, blocks.take(i)),
    decreases blocks.len() - i,
{
    if i < blocks.len() {
        assert(blocks.take(i + 1).drop_last() =~= blocks.take(i));
        lemma_scan_blocks_err_persists(cnames, constnames, blocks, i + 1);
    } else {
        assert(blocks.take(i) =~= blocks);
    }
}

/// On success the block namespace is sound: one name per block, all distinct,
/// none shadowing a contract or constant name; the entry index names `main`,
/// and when no entry was found no block is named `main`.
pub proof fn lemma_scan_blocks_ok(
    cnames: Seq<Seq<char>>,
    constnames: Seq<Seq<char>>,
    blocks: Seq<Located<WithAttributes<RBlock>>>,
    names: Seq<Seq<char>>,
    main: Option<int>,
    last: Option<int>,
)
    requires
        scan_blocks(cnames, constnames, blocks) == Ok::<
            (Seq<Seq<char>>, Option<int>, Option<int>),
            Diagnostic,
        >((names, main, last)),
    ensures
        names.len() == blocks.len(),
        distinct_names(names),
        forall|j: int| 0 <= j < names.len() ==> names[j]
            == blocks[j].inner.inner.inner.name.inner.0@,
        match main {
            Some(m) => 0 <= m < names.len() && names[m] == "main"@,
            None => !contains_name(names, "main"@),
        },
        match last {
            Some(l) => 0 <= l < names.len(),
            None => true,
        },
    decreases blocks.len(),
{
    if blocks.len() > 0 {
        let prev = scan_blocks(cnames, constnames, blocks.drop_last());
        let (pnames, pmain, plast) = prev->Ok_0;
        lemma_scan_blocks_ok(cnames, constnames, blocks.drop_last(), pnames, pmain, plast);
        assert(names.drop_last() =~= pnames);
        assert forall|i: int, j: int| 0 <= i < j < names.len() implies names[i] != names[j] by {
            if j < names.len() - 1 {
                assert(pnames[i] == names[i] && pnames[j] == names[j]);
            } else {
                assert(pnames[i] == names[i]);
                if names[i] == names[j] {
                    assert(contains_name(pnames, names.last()));
                }
            }
        }
        assert forall|j: int|
            0 <= j < names.len() implies names[j]
            == blocks[j].inner.inner.inner.name.inner.0@ by {
            if j < names.len() - 1 {
                assert(pnames[j] == names[j]);
                assert(blocks.drop_last()[j] == blocks[j]);
            }
        }
        let b = blocks.last();
        let nm = b.inner.inner.inner.name.inner.0@;
        let la = scan_block_attrs(b.inner.attributes@, blocks.len() - 1, plast);
        if nm == "main"@ {
        } else {
            match pmain {
                Some(m) => {
                    assert(names[m] == pnames[m]);
                },
                None => {
                    if contains_name(names, "main"@) {
                        let j = choose|j: int| 0 <= j < names.len() && names[j] == "main"@;
                        assert(j < names.len() - 1);
                        assert(pnames[j] == names[j]);
                    }
                },
            }
        }
        lemma_scan_block_attrs_last_range(b.inner.attributes@, blocks.len() - 1, plast);
    }
}

/// The `last` index a block's attribute scan returns is the old one or the
/// block's own index.
pub proof fn lemma_scan_block_attrs_last_range(
    attrs: Seq<Located<RAttribute>>,
    block_index: int,
    last0: Option<int>,
)
    ensures
        scan_block_attrs(attrs, block_index, last0) matches Ok(l) ==> l == last0 || l == Some(
            block_index,
        ),
    decreases attrs.len(),
{
    if attrs.len() > 0 {
        lemma_scan_block_attrs_last_range(attrs.drop_last(), block_index, last0);
    }
}

/// How the contract list reads: contract attributes first (only `define` may
/// stand on a contract), then the contract name checked against those already
/// seen; the contract carrying the requested entry-point name becomes the
/// entry. Returns the contract names in order and the entry index.
pub open spec fn scan_contract_attrs(attrs: Seq<Located<RAttribute>>) -> Result<(), Diagnostic>
    decreases attrs.len(),
{
    if attrs.len() == 0 {
        Ok(())
    } else {
        match scan_contract_attrs(attrs.drop_last()) {
            Err(d) => Err(d),
            Ok(u) => {
                let a = attrs.last();
                match attr_spec(a.inner) {
                    Some(AttrModel::Define(n, v)) => Ok(()),
                    _ => Err(
                        Diagnostic {
                            kind: ErrorKind::InvalidContractAttribute,
                            span: Some(a.span),
                        },
                    ),
                }
            },
        }
    }
}

pub proof fn lemma_scan_contract_attrs_err_persists(attrs: Seq<Located<RAttribute>>, i: int)
    requires
        0 <= i <= attrs.len(),
        scan_contract_attrs(attrs.take(i)) is Err,
    ensures
        scan_contract_attrs(attrs) == scan_contract_attrs(attrs.take(i)),
    decreases attrs.len() - i,
{
    if i < attrs.len() {
        assert(attrs.take(i + 1).drop_last() =~= attrs.take(i));
        lemma_scan_contract_attrs_err_persists(attrs, i + 1);
    } else {
        assert(attrs.take(i) =~= attrs);
    }
}

pub open spec fn scan_contracts(
    target: Seq<char>,
    contracts: Seq<Located<WithAttributes<RContract>>>,
) -> Result<(Seq<Seq<char>>, Option<int>), Diagnostic>
    decreases contracts.len(),
{
    if contracts.len() == 0 {
        Ok((Seq::empty(), None))
    } else {
        match scan_contracts(target, contracts.drop_last()) {
            Err(d) => Err(d),
            Ok((names, entry)) => {
                let c = contracts.last();
                let ci = contracts.len() - 1;
                match scan_contract_attrs(c.inner.attributes@) {
                    Err(d) => Err(d),
                    Ok(u) => {
                        let nm = c.inner.inner.inner.name.inner.0@;
                        if contains_name(names, nm) {
                            Err(
                                Diagnostic {
                                    kind: ErrorKind::DuplicateName,
                                    span: Some(c.inner.inner.inner.name.span),
                                },
                            )
                        } else {
                            Ok(
                                (
                                    names.push(nm),
                                    if nm == target {
                                        Some(ci)
                                    } else {
                                        entry
                                    },
                                ),
                            )
                        }
                    },
                }
            },
        }
    }
}

pub proof fn lemma_scan_contracts_err_persists(
    target: Seq<char>,
    contracts: Seq<Located<WithAttributes<RContract>>>,
    i: int,
)
    requires
        0 <= i <= contracts.len(),
        scan_contracts(target, contracts.take(i)) is Err,
    ensures
        scan_contracts(target, contracts) == scan_contracts(target, contracts.take(i)),
    decreases contracts.len() - i,
{
    if i < contracts.len() {
        assert(contracts.take(i + 1).drop_last() =~= contracts.take(i));
        lemma_scan_contracts_err_persists(target, contracts, i + 1);
    } else {
        assert(contracts.take(i) =~= contracts);
    }
}

/// On success the contract namespace is sound: one name per contract, all
/// distinct; the entry index carries the requested name, and when no entry
/// was found no contract carries it.
pub proof fn lemma_scan_contracts_ok(
    target: Seq<char>,
    contracts: Seq<Located<WithAttributes<RContract>>>,
    names: Seq<Seq<char>>,
    entry: Option<int>,
)
    requires
        scan_contracts(target, contracts) == Ok::<(Seq<Seq<char>>, Option<int>), Diagnostic>(
            (names, entry),
        ),
    ensures
        names.len() == contracts.len(),
        distinct_names(names),
        forall|j: int| 0 <= j < names.len() ==> names[j]
            == contracts[j].inner.inner.inner.name.inner.0@,
        match entry {
            Some(e) => 0 <= e < names.len() && names[e] == target,
            None => !contains_name(names, target),
        },
    decreases contracts.len(),
{
    if contracts.len() > 0 {
        let prev = scan_contracts(target, contracts.drop_last());
        let (pnames, pentry) = prev->Ok_0;
        lemma_scan_contracts_ok(target, contracts.drop_last(), pnames, pentry);
        assert(names.drop_last() =~= pnames);
        assert forall|i: int, j: int| 0 <= i < j < names.len() implies names[i] != names[j] by {
            if j < names.len() - 1 {
                assert(pnames[i] == names[i] && pnames[j] == names[j]);
            } else {
                assert(pnames[i] == names[i]);
                if names[i] == names[j] {
                    assert(contains_name(pnames, names.last()));
                }
            }
        }
        assert forall|j: int|
            0 <= j < names.len() implies names[j]
            == contracts[j].inner.inner.inner.name.inner.0@ by {
            if j < names.len() - 1 {
                assert(pnames[j] == names[j]);
                assert(contracts.drop_last()[j] == contracts[j]);
            }
        }
        let nm = contracts.last().inner.inner.inner.name.inner.0@;
        if nm == target {
        } else {
            match pentry {
                Some(e) => {
                    assert(names[e] == pnames[e]);
                },
                None => {
                    if contains_name(names, target) {
                        let j = choose|j: int| 0 <= j < names.len() && names[j] == target;
                        assert(j < names.len() - 1);
                        assert(pnames[j] == names[j]);
                    }
                },
            }
        }
    }
}

/// A dependency edge between resolved blocks: `a` is resolved and references `b`.
pub open spec fn block_edge(blocks: Seq<Option<Block>>, a: int, b: int) -> bool {
    &&& 0 <= a < blocks.len()
    &&& 0 <= b < blocks.len()
    &&& blocks[a] is Some
    &&& blocks[a]->Some_0.dependencies@.contains(b as usize)
}

/// A dependency edge between resolved contracts: `a` is resolved and
/// references `b`'s code.
pub open spec fn contract_edge(out: Seq<Option<Contract>>, a: int, b: int) -> bool {
    &&& 0 <= a < out.len()
    &&& 0 <= b < out.len()
    &&& out[a] is Some
    &&& out[a]->Some_0.dependencies@.contains(b as usize)
}

/// A resolved block's content is what its item fold produces, from some
/// classification and contract-dependency context: the emitted items and the
/// recorded sibling dependencies do not depend on that context.
#[verifier::opaque]
pub open spec fn block_content_ok(
    cnames: Seq<Seq<char>>,
    bnames: Seq<Seq<char>>,
    consts: Seq<(Seq<char>, Seq<u8>)>,
    items_src: Seq<Located<RBlockItem>>,
    b: Block,
) -> bool {
    exists|t0: Seq<BlockType>, cd0: Seq<usize>|
        #[trigger] block_run(cnames, bnames, consts, init_bstate(t0, cd0), items_src) matches Ok(
            st,
        ) && items_view(b.items@) == flushed(st) && b.dependencies@ == st.bdeps
            && strictly_sorted(b.dependencies@)
}

/// What a resolved contract promises: its constant and block namespaces read
/// cleanly; `main` is the entry block; only blocks reachable from `main` are
/// resolved, each to exactly what its item fold produces; dependencies stay
/// in range and sorted.
#[verifier::opaque]
pub open spec fn contract_ok(
    cnames: Seq<Seq<char>>,
    rcl: Located<WithAttributes<RContract>>,
    c: Contract,
) -> bool {
    let rc = rcl.inner.inner.inner;
    let consts = scan_constants(cnames, rc.constants@);
    let cv = consts->Ok_0;
    let scan = scan_blocks(cnames, const_names(cv), rc.blocks@);
    let names = scan->Ok_0.0;
    &&& consts is Ok
    &&& scan is Ok
    &&& scan->Ok_0.1 == Some(c.main as int)
    &&& opt_index(c.last) == scan->Ok_0.2
    &&& c.blocks@.len() == rc.blocks@.len()
    &&& c.main < c.blocks@.len()
    &&& c.blocks@[c.main as int] is Some
    &&& strictly_sorted(c.dependencies@)
    &&& forall|x: usize| as_set(c.dependencies@).contains(x) ==> x < cnames.len()
    &&& forall|i: int, d: usize|
        0 <= i < c.blocks@.len() && c.blocks@[i] is Some && (#[trigger] c.blocks@[i]->Some_0.dependencies@.contains(d))
            ==> d < c.blocks@.len() && c.blocks@[d as int] is Some
    &&& forall|i: int|
        0 <= i < c.blocks@.len() && (#[trigger] c.blocks@[i]) is Some ==> reachable(
            (|a: int, b: int| block_edge(c.blocks@, a, b)),
            c.main as int,
            i,
        )
    &&& forall|i: int|
        0 <= i < c.blocks@.len() && (#[trigger] c.blocks@[i]) is Some ==> block_content_ok(
            cnames,
            names,
            cv,
            rc.blocks@[i].inner.inner.inner.items@,
            c.blocks@[i]->Some_0,
        )
}


/// Scans the block list of one contract: applies attributes, checks the
/// `last` marker and the namespace, and finds the entry block, exactly as
/// `scan_blocks` reads the list.
#[verifier::loop_isolation(false)]
#[verifier::rlimit(60)]
fn scan_contract_blocks(
    r_contract: &RContract,
    default_attributes: &Attributes,
    contract_names: &NameTable,
    constants: &Constants,
) -> (r: Result<(NameTable, Option<usize>, Option<usize>, Vec<Attributes>), Diagnostic>)
    ensures
        match r {
            Ok(t) => scan_blocks(contract_names@, const_names(constants.view_spec()), r_contract.blocks@)
                == Ok::<(Seq<Seq<char>>, Option<int>, Option<int>), Diagnostic>(
                (t.0@, opt_index(t.1), opt_index(t.2)),
            ),
            Err(d) => scan_blocks(
                contract_names@,
                const_names(constants.view_spec()),
                r_contract.blocks@,
            ) == Err::<(Seq<Seq<char>>, Option<int>, Option<int>), Diagnostic>(d),
        },
{
    let ghost cn = contract_names@;
    let ghost constnames = const_names(constants.view_spec());
    let ghost rc = *r_contract;
    let nblocks = r_contract.blocks.len();
    let mut block_names = NameTable::new();
    let mut main_index: Option<usize> = None;
    let mut last_index: Option<usize> = None;
    let mut block_attributes: Vec<Attributes> = Vec::new();

    proof {
        assert(rc.blocks@.take(0) =~= Seq::<Located<WithAttributes<RBlock>>>::empty());
    }
    let mut bi: usize = 0;
    while bi < nblocks
        invariant
            0 <= bi <= nblocks,
            nblocks == rc.blocks@.len(),
            block_names@.len() == bi,
            block_attributes@.len() == bi,
            scan_blocks(cn, constnames, rc.blocks@.take(bi as int)) == Ok::<
                (Seq<Seq<char>>, Option<int>, Option<int>),
                Diagnostic,
            >((block_names@, opt_index(main_index), opt_index(last_index))),
        decreases nblocks - bi,
    {
        let b = &r_contract.blocks[bi];
        proof {
            assert(rc.blocks@.take(bi + 1).drop_last() =~= rc.blocks@.take(bi as int));
            assert(rc.blocks@.take(bi + 1).last() == rc.blocks@[bi as int]);
        }
        let ghost last0 = opt_index(last_index);
        let mut attrs = default_attributes.duplicate();
        let nattrs = b.inner.attributes.len();
        proof {
            assert(b.inner.attributes@.take(0) =~= Seq::<Located<RAttribute>>::empty());
        }
        let mut ai: usize = 0;
        while ai < nattrs
            invariant
                0 <= ai <= nattrs,
                nattrs == b.inner.attributes@.len(),
                scan_block_attrs(b.inner.attributes@.take(ai as int), bi as int, last0) == Ok::<
                    Option<int>,
                    Diagnostic,
                >(opt_index(last_index)),
            decreases nattrs - ai,
        {
            let a = &b.inner.attributes[ai];
            proof {
                assert(b.inner.attributes@.take(ai + 1).drop_last() =~= b.inner.attributes@.take(
                    ai as int,
                ));
                assert(b.inner.attributes@.take(ai + 1).last() == b.inner.attributes@[ai as int]);
            }
            let parsed = Attribute::from_r_attribute(&a.inner);
            match parsed {
                None => {
                    proof {
                        lemma_scan_block_attrs_err_persists(
                            b.inner.attributes@,
                            bi as int,
                            last0,
                            ai + 1,
                        );
                        lemma_scan_blocks_err_persists(cn, constnames, rc.blocks@, bi + 1);
                    }
                    return Err(
                        Diagnostic { kind: ErrorKind::InvalidBlockAttribute, span: Some(a.span) },
                    );
                },
                Some(at) => {
                    if at.is_last() {
                        if last_index.is_some() {
                            proof {
                                lemma_scan_block_attrs_err_persists(
                                    b.inner.attributes@,
                                    bi as int,
                                    last0,
                                    ai + 1,
                                );
                                lemma_scan_blocks_err_persists(cn, constnames, rc.blocks@, bi + 1);
                            }
                            return Err(
                                Diagnostic { kind: ErrorKind::DuplicateLast, span: Some(a.span) },
                            );
                        }
                        last_index = Some(bi);
                    }
                    attrs.apply(at);
                },
            }
            ai += 1;
        }
        proof {
            assert(b.inner.attributes@.take(nattrs as int) =~= b.inner.attributes@);
        }
        let name = b.inner.inner.inner.name_str();
        if contract_names.lookup(name).is_some() || constants.get(name).is_some()
            || block_names.lookup(name).is_some() {
            proof {
                lemma_scan_blocks_err_persists(cn, constnames, rc.blocks@, bi + 1);
            }
            return Err(
                Diagnostic {
                    kind: ErrorKind::DuplicateName,
                    span: Some(b.inner.inner.inner.name.span),
                },
            );
        }
        block_names.push(name.to_owned());
        if str_eq(name, "main") {
            main_index = Some(bi);
        }
        block_attributes.push(attrs);
        bi += 1;
    }
    proof {
        assert(rc.blocks@.take(nblocks as int) =~= rc.blocks@);
    }
    Ok((block_names, main_index, last_index, block_attributes))
}

/// Resolves the blocks of one contract reachable from its entry block, in
/// work-queue order, recording every discovered dependency edge.
#[verifier::loop_isolation(false)]
#[verifier::rlimit(100)]
#[verifier::spinoff_prover]
fn resolve_blocks(
    r_contract: &RContract,
    constants: &Constants,
    contract_names: &NameTable,
    block_names: &NameTable,
    main_index: usize,
) -> (r: Result<(Vec<Option<Block>>, Vec<usize>), Diagnostic>)
    requires
        block_names@.len() == r_contract.blocks@.len(),
        main_index < r_contract.blocks@.len(),
    ensures
        ({
            let spec_r = resolve_blocks_spec(
                contract_names@,
                block_names@,
                constants.view_spec(),
                r_contract.blocks@,
                seq![main_index],
                0,
                none_blocks(r_contract.blocks@.len() as int),
                initial_types(r_contract.blocks@.len() as int, main_index as int),
                Seq::empty(),
                r_contract.blocks@.len() as nat,
            );
            match r {
                Ok(t) => spec_r == Ok::<(Seq<Option<ResolvedBlock>>, Seq<usize>), Diagnostic>(
                    (blocks_model(t.0@), t.1@),
                ),
                Err(d) => spec_r == Err::<(Seq<Option<ResolvedBlock>>, Seq<usize>), Diagnostic>(d),
            }
        }),
        r matches Ok(t) ==> ({
            let out = t.0;
            let deps = t.1;
            &&& out@.len() == r_contract.blocks@.len()
            &&& out@[main_index as int] is Some
            &&& strictly_sorted(deps@)
            &&& (forall|x: usize| as_set(deps@).contains(x) ==> x < contract_names@.len())
            &&& (forall|i: int, d: usize|
                0 <= i < out@.len() && out@[i] is Some && (#[trigger] out@[i]->Some_0.dependencies@.contains(
                    d,
                )) ==> d < out@.len() && out@[d as int] is Some)
            &&& (forall|i: int|
                0 <= i < out@.len() && (#[trigger] out@[i]) is Some ==> reachable(
                    (|a: int, b: int| block_edge(out@, a, b)),
                    main_index as int,
                    i,
                ))
            &&& (forall|i: int|
                0 <= i < out@.len() && (#[trigger] out@[i]) is Some ==> block_content_ok(
                    contract_names@,
                    block_names@,
                    constants.view_spec(),
                    r_contract.blocks@[i].inner.inner.inner.items@,
                    out@[i]->Some_0,
                ))
        }),
{
    let ghost cn = contract_names@;
    let ghost bn = block_names@;
    let ghost cv = constants.view_spec();
    let ghost rc = *r_contract;
    let nblocks = r_contract.blocks.len();
    let mut out_blocks: Vec<Option<Block>> = Vec::new();
    let mut block_types: Vec<BlockType> = Vec::new();
    let mut k: usize = 0;
    while k < nblocks
        invariant
            k <= nblocks,
            out_blocks@.len() == k,
            block_types@.len() == k,
            forall|j: int| 0 <= j < k ==> out_blocks@[j] is None,
            forall|j: int| 0 <= j < k ==> block_types@[j] == BlockType::Unused,
        decreases nblocks - k,
    {
        out_blocks.push(None);
        block_types.push(BlockType::Unused);
        k += 1;
    }
    block_types.set(main_index, BlockType::Star);

    let mut contract_dependencies: Vec<usize> = Vec::new();
    let mut blocks_queue = DedupQueue::new(nblocks);
    blocks_queue.insert_if_needed(main_index);
    let mut blocks_dependency_tree = DependencyTree::new();
    let ghost goal = resolve_blocks_spec(
        cn,
        bn,
        cv,
        rc.blocks@,
        seq![main_index],
        0,
        none_blocks(nblocks as int),
        initial_types(nblocks as int, main_index as int),
        Seq::empty(),
        nblocks as nat,
    );
    proof {
        assert(blocks_queue.items@ =~= seq![main_index]);
        assert(blocks_queue.items@[0] == main_index);
        assert(blocks_queue.items@.contains(main_index));
        assert(as_set(contract_dependencies@) =~= Set::<usize>::empty());
        let e0 = (|a: int, b: int| block_edge(out_blocks@, a, b));
        assert(reaches(e0, main_index as int, main_index as int, 0nat));
        assert(reachable(e0, main_index as int, main_index as int));
        assert(blocks_model(out_blocks@) =~= none_blocks(nblocks as int));
        assert(block_types@ =~= initial_types(nblocks as int, main_index as int));
        assert(contract_dependencies@ =~= Seq::<usize>::empty());
    }

    loop
        invariant
            blocks_queue.wf(),
            blocks_queue.capacity() == nblocks,
            block_types@.len() == nblocks,
            out_blocks@.len() == nblocks,
            main_index < nblocks,
            strictly_sorted(contract_dependencies@),
            forall|x: usize| as_set(contract_dependencies@).contains(x) ==> x < cn.len(),
            blocks_queue.items@.contains(main_index),
            forall|t: int|
                0 <= t < blocks_queue.head ==> out_blocks@[#[trigger] blocks_queue.items@[t] as int]
                    is Some,
            forall|i: int|
                0 <= i < nblocks && (#[trigger] out_blocks@[i]) is Some ==> blocks_queue.items@.take(
                    blocks_queue.head as int,
                ).contains(i as usize),
            forall|i: int|
                0 <= i < nblocks && (#[trigger] out_blocks@[i]) is Some ==> block_content_ok(
                    cn,
                    bn,
                    cv,
                    rc.blocks@[i].inner.inner.inner.items@,
                    out_blocks@[i]->Some_0,
                ),
            forall|i: int, d: usize|
                0 <= i < nblocks && out_blocks@[i] is Some && (#[trigger] out_blocks@[i]->Some_0.dependencies@.contains(
                    d,
                )) ==> d < nblocks && blocks_queue.items@.contains(d),
            forall|t: int|
                0 <= t < blocks_queue.items@.len() ==> reachable(
                    (|a: int, b: int| block_edge(out_blocks@, a, b)),
                    main_index as int,
                    #[trigger] blocks_queue.items@[t] as int,
                ),
            resolve_blocks_spec(
                cn,
                bn,
                cv,
                rc.blocks@,
                blocks_queue.items@,
                blocks_queue.head as int,
                blocks_model(out_blocks@),
                block_types@,
                contract_dependencies@,
                (nblocks - blocks_queue.head) as nat,
            ) == goal,
        decreases nblocks - blocks_queue.head,
    {
        let ghost head0 = blocks_queue.head;
        let ghost items0 = blocks_queue.items@;
        let next = blocks_queue.pop();
        match next {
            None => {
                break ;
            },
            Some(index) => {
                let ghost out0 = out_blocks@;
                let ghost t0 = block_types@;
                let ghost cd0 = contract_dependencies@;
                let processed = pre_process_block(
                    &r_contract.blocks[index],
                    &constants,
                    &mut contract_dependencies,
                    contract_names,
                    &block_names,
                    &mut block_types,
                );
                let block = match processed {
                    Ok(b) => b,
                    Err(d) => {
                        proof {
                            assert(items0[head0 as int] == index);
                            assert(block_run(
                                cn,
                                bn,
                                cv,
                                init_bstate(t0, cd0),
                                rc.blocks@[index as int].inner.inner.inner.items@,
                            ) == Err::<BState, Diagnostic>(d));
                            reveal_with_fuel(resolve_blocks_spec, 2);
                            assert(resolve_blocks_spec(
                                cn,
                                bn,
                                cv,
                                rc.blocks@,
                                items0,
                                head0 as int,
                                blocks_model(out0),
                                t0,
                                cd0,
                                (nblocks - head0) as nat,
                            ) == Err::<(Seq<Option<ResolvedBlock>>, Seq<usize>), Diagnostic>(d));
                        }
                        return Err(d);
                    },
                };
                proof {
                    assert(out_blocks@[index as int] is None) by {
                        if out_blocks@[index as int] is Some {
                            assert(items0.take(head0 as int).contains(index));
                            let t = choose|t: int|
                                0 <= t < head0 && items0.take(head0 as int)[t] == index;
                            assert(items0[t] == items0[head0 as int]);
                        }
                    }
                }
                let ghost new_out = out_blocks@.update(index as int, Some(block));
                proof {
                    // edges only grow when a block is resolved
                    assert forall|a: int, b: int|
                        block_edge(out0, a, b) implies block_edge(new_out, a, b) by {
                        assert(a != index);
                    }
                    assert forall|t: int|
                        0 <= t < blocks_queue.items@.len() implies reachable(
                            (|a: int, b: int| block_edge(new_out, a, b)),
                            main_index as int,
                            #[trigger] blocks_queue.items@[t] as int,
                        ) by {
                        let e0 = (|a: int, b: int| block_edge(out0, a, b));
                        let kk = choose|kk: nat|
                            #[trigger] reaches(
                                e0,
                                main_index as int,
                                blocks_queue.items@[t] as int,
                                kk,
                            );
                        lemma_reaches_mono(
                            e0,
                            (|a: int, b: int| block_edge(new_out, a, b)),
                            main_index as int,
                            blocks_queue.items@[t] as int,
                            kk,
                        );
                    }
                }
                proof {
                    assert(block.dependencies@.skip(0) =~= block.dependencies@);
                }
                let ndeps = block.dependencies.len();
                let mut t: usize = 0;
                while t < ndeps
                    invariant
                        0 <= t <= ndeps,
                        ndeps == block.dependencies@.len(),
                        blocks_queue.wf(),
                        blocks_queue.capacity() == nblocks,
                        blocks_queue.head == head0 + 1,
                        items0.is_prefix_of(blocks_queue.items@),
                        enqueue_new(blocks_queue.items@, block.dependencies@.skip(t as int))
                            == enqueue_new(items0, block.dependencies@),
                        forall|j: int|
                            0 <= j < t ==> blocks_queue.items@.contains(
                                #[trigger] block.dependencies@[j],
                            ),
                        forall|tt: int|
                            0 <= tt < blocks_queue.items@.len() ==> reachable(
                                (|a: int, b: int| block_edge(new_out, a, b)),
                                main_index as int,
                                #[trigger] blocks_queue.items@[tt] as int,
                            ),
                    decreases ndeps - t,
                {
                    let d = block.dependencies[t];
                    proof {
                        assert(block.dependencies@.contains(d));
                        assert(as_set(block.dependencies@).contains(d));
                    }
                    let ghost items_pre = blocks_queue.items@;
                    proof {
                        assert(block.dependencies@.skip(t as int).first() == block.dependencies@[t as int]);
                        assert(block.dependencies@.skip(t as int).skip(1) =~= block.dependencies@.skip(
                            t + 1,
                        ));
                    }
                    blocks_queue.insert_if_needed(d);
                    blocks_dependency_tree.insert_if_needed(index, d);
                    proof {
                        assert(enqueue_new(items_pre, block.dependencies@.skip(t as int))
                            == enqueue_new(blocks_queue.items@, block.dependencies@.skip(t + 1)));
                        assert forall|j: int|
                            0 <= j < t + 1 implies blocks_queue.items@.contains(
                            #[trigger] block.dependencies@[j],
                        ) by {
                            if j < t {
                                let w = choose|w: int|
                                    0 <= w < items_pre.len() && items_pre[w]
                                        == block.dependencies@[j];
                                assert(blocks_queue.items@[w] == block.dependencies@[j]);
                            } else {
                                if items_pre.contains(d) {
                                    let w = choose|w: int|
                                        0 <= w < items_pre.len() && items_pre[w] == d;
                                    assert(blocks_queue.items@[w] == d);
                                } else {
                                    assert(blocks_queue.items@.last() == d);
                                }
                            }
                        }
                        if !items_pre.contains(d) {
                            let e = (|a: int, b: int| block_edge(new_out, a, b));
                            assert(items_pre[head0 as int] == index);
                            let kk = choose|kk: nat|
                                #[trigger] reaches(e, main_index as int, index as int, kk);
                            assert(new_out[index as int]->Some_0.dependencies@.contains(d));
                            assert(e(index as int, d as int));
                            assert(reaches(e, main_index as int, d as int, (kk + 1) as nat));
                            assert forall|tt: int|
                                0 <= tt < blocks_queue.items@.len() implies reachable(
                                    e,
                                    main_index as int,
                                    #[trigger] blocks_queue.items@[tt] as int,
                                ) by {
                                if tt < items_pre.len() {
                                    assert(blocks_queue.items@[tt] == items_pre[tt]);
                                } else {
                                    assert(blocks_queue.items@[tt] == d);
                                }
                            }
                        }
                    }
                    t += 1;
                }
                out_blocks.set(index, Some(block));
                proof {
                    assert(out_blocks@ =~= new_out);
                    // the resolved block is exactly what its item fold produces
                    assert(block_run(
                        cn,
                        bn,
                        cv,
                        init_bstate(t0, cd0),
                        rc.blocks@[index as int].inner.inner.inner.items@,
                    ) is Ok);
                    assert(block_content_ok(
                        cn,
                        bn,
                        cv,
                        rc.blocks@[index as int].inner.inner.inner.items@,
                        out_blocks@[index as int]->Some_0,
                    )) by {
                        reveal(block_content_ok);
                    }
                    // one unfolding of the traversal spec matches this iteration
                    let st = block_run(
                        cn,
                        bn,
                        cv,
                        init_bstate(t0, cd0),
                        rc.blocks@[index as int].inner.inner.inner.items@,
                    )->Ok_0;
                    assert(block.dependencies@.skip(ndeps as int) =~= Seq::<usize>::empty());
                    assert(blocks_queue.items@ == enqueue_new(items0, st.bdeps));
                    assert(blocks_model(out_blocks@) =~= blocks_model(out0).update(
                        index as int,
                        Some(ResolvedBlock { items: flushed(st), deps: st.bdeps }),
                    ));
                    assert(items0[head0 as int] == index);
                    reveal_with_fuel(resolve_blocks_spec, 2);
                    assert(resolve_blocks_spec(
                        cn,
                        bn,
                        cv,
                        rc.blocks@,
                        items0,
                        head0 as int,
                        blocks_model(out0),
                        t0,
                        cd0,
                        (nblocks - head0) as nat,
                    ) == resolve_blocks_spec(
                        cn,
                        bn,
                        cv,
                        rc.blocks@,
                        blocks_queue.items@,
                        head0 + 1,
                        blocks_model(out_blocks@),
                        block_types@,
                        contract_dependencies@,
                        (nblocks - head0 - 1) as nat,
                    ));
                    // dependencies of the new block are queued and in range
                    assert forall|i: int, d: usize|
                        0 <= i < nblocks && out_blocks@[i] is Some && (#[trigger] out_blocks@[i]->Some_0.dependencies@.contains(
                            d,
                        )) implies d < nblocks && blocks_queue.items@.contains(d) by {
                        if i == index as int {
                            assert(as_set(out_blocks@[i]->Some_0.dependencies@).contains(d));
                            let j = choose|j: int|
                                0 <= j < out_blocks@[i]->Some_0.dependencies@.len()
                                    && out_blocks@[i]->Some_0.dependencies@[j] == d;
                        } else {
                            assert(out0[i] is Some);
                            assert(items0.contains(d));
                            let jj = choose|jj: int| 0 <= jj < items0.len() && items0[jj] == d;
                            assert(blocks_queue.items@[jj] == d);
                        }
                    }
                    assert(blocks_queue.items@.contains(main_index)) by {
                        let jj = choose|jj: int| 0 <= jj < items0.len() && items0[jj] == main_index;
                        assert(blocks_queue.items@[jj] == main_index);
                    }
                    assert forall|tt: int|
                        0 <= tt < blocks_queue.head implies out_blocks@[#[trigger] blocks_queue.items@[tt] as int]
                        is Some by {
                        if tt < head0 {
                            assert(blocks_queue.items@[tt] == items0[tt]);
                            assert(out0[items0[tt] as int] is Some);
                        } else {
                            assert(blocks_queue.items@[tt] == items0[head0 as int]);
                            assert(items0[head0 as int] == index);
                        }
                    }
                    assert forall|i: int|
                        0 <= i < nblocks && (#[trigger] out_blocks@[i]) is Some implies blocks_queue.items@.take(
                            blocks_queue.head as int,
                        ).contains(i as usize) by {
                        if i == index as int {
                            assert(blocks_queue.items@.take(blocks_queue.head as int)[head0 as int]
                                == index);
                        } else {
                            assert(out0[i] is Some);
                            let tt = choose|tt: int|
                                0 <= tt < head0 && items0.take(head0 as int)[tt] == i as usize;
                            assert(blocks_queue.items@.take(blocks_queue.head as int)[tt] == i
                                as usize);
                        }
                    }
                }
            },
        }
    }
    proof {
        assert forall|i: int, d: usize|
            0 <= i < nblocks && out_blocks@[i] is Some && (#[trigger] out_blocks@[i]->Some_0.dependencies@.contains(
                d,
            )) implies d < nblocks && out_blocks@[d as int] is Some by {
            assert(blocks_queue.items@.contains(d));
            let tt = choose|tt: int|
                0 <= tt < blocks_queue.items@.len() && blocks_queue.items@[tt] == d;
            assert(out_blocks@[blocks_queue.items@[tt] as int] is Some);
        }
        assert(out_blocks@[main_index as int] is Some) by {
            let tt = choose|tt: int|
                0 <= tt < blocks_queue.items@.len() && blocks_queue.items@[tt] == main_index;
            assert(out_blocks@[blocks_queue.items@[tt] as int] is Some);
        }
        reveal_with_fuel(resolve_blocks_spec, 2);
        assert(goal == Ok::<(Seq<Option<ResolvedBlock>>, Seq<usize>), Diagnostic>(
            (blocks_model(out_blocks@), contract_dependencies@),
        ));
    }

    Ok((out_blocks, contract_dependencies))
}

/// Resolves one contract: validates its constants, attributes and block
/// namespace, then resolves exactly the blocks reachable from `main`.
pub fn pre_process_contract(
    r_contract_with_attr: &Located<WithAttributes<RContract>>,
    default_attributes: &Attributes,
    contract_names: &NameTable,
) -> (r: Result<Contract, Diagnostic>)
    ensures
        match r {
            Ok(c) => resolve_contract_spec(contract_names@, *r_contract_with_attr) == Ok::<
                ContractModel,
                Diagnostic,
            >(contract_model(c)) && contract_ok(contract_names@, *r_contract_with_attr, c),
            Err(d) => resolve_contract_spec(contract_names@, *r_contract_with_attr) == Err::<
                ContractModel,
                Diagnostic,
            >(d),
        },
{
    proof {
        reveal(resolve_contract_spec);
    }
    let r_contract = r_contract_with_attr.inner.inner();
    let ghost cn = contract_names@;
    let ghost rc = r_contract_with_attr.inner.inner.inner;

    let constants = match extract_constants(&r_contract.constants, contract_names) {
        Ok(cs) => cs,
        Err(d) => {
            return Err(d);
        },
    };

    let scanned = match scan_contract_blocks(r_contract, default_attributes, contract_names, &constants) {
        Ok(t) => t,
        Err(d) => {
            return Err(d);
        },
    };
    let (block_names, main_opt, last_index, block_attributes) = scanned;
    let main_index = match main_opt {
        Some(m) => m,
        None => {
            return Err(
                Diagnostic { kind: ErrorKind::MainBlockNotFound, span: Some(r_contract.name.span) },
            );
        },
    };
    proof {
        lemma_scan_blocks_ok(
            cn,
            const_names(constants.view_spec()),
            rc.blocks@,
            block_names@,
            opt_index(Some(main_index)),
            opt_index(last_index),
        );
    }
    proof {
        assert(seq![(main_index as int) as usize] =~= seq![main_index]);
    }
    let resolved = match resolve_blocks(
        r_contract,
        &constants,
        contract_names,
        &block_names,
        main_index,
    ) {
        Ok(t) => t,
        Err(d) => {
            return Err(d);
        },
    };
    let (out_blocks, contract_dependencies) = resolved;
    proof {
        reveal(contract_ok);
    }
    Ok(
        Contract {
            blocks: out_blocks,
            dependencies: contract_dependencies,
            main: main_index,
            last: last_index,
        },
    )
}



pub open spec fn contracts_model(s: Seq<Option<Contract>>) -> Seq<Option<ContractModel>> {
    s.map_values(
        |o: Option<Contract>|
            match o {
                Some(c) => Some(contract_model(c)),
                None => None,
            },
    )
}

/// No resolved contracts, one slot per source contract.
pub open spec fn none_contracts(n: int) -> Seq<Option<ContractModel>> {
    Seq::new(n as nat, |i: int| None)
}

/// The contract traversal, step by step as the work queue runs: pop the next
/// index, resolve that contract, record it, and enqueue its unseen
/// dependencies. One unit of fuel is spent per pop; the number of source
/// contracts is always enough, since the queue holds each index at most once.
#[verifier::opaque]
pub open spec fn resolve_contracts_spec(
    names: Seq<Seq<char>>,
    contracts_src: Seq<Located<WithAttributes<RContract>>>,
    queue: Seq<usize>,
    head: int,
    out: Seq<Option<ContractModel>>,
    fuel: nat,
) -> Result<Seq<Option<ContractModel>>, Diagnostic>
    decreases fuel,
{
    if head >= queue.len() || fuel == 0 || !(0 <= head) {
        Ok(out)
    } else {
        let ci = queue[head];
        if ci >= contracts_src.len() {
            Ok(out)
        } else {
            match resolve_contract_spec(names, contracts_src[ci as int]) {
                Err(d) => Err(d),
                Ok(cm) => resolve_contracts_spec(
                    names,
                    contracts_src,
                    enqueue_new(queue, cm.deps),
                    head + 1,
                    out.update(ci as int, Some(cm)),
                    (fuel - 1) as nat,
                ),
            }
        }
    }
}

/// What resolving a whole file returns: the contract-namespace scan, the
/// entry-point check, then the contract traversal from the entry.
pub open spec fn pre_process_spec(r_file: RFile, target: Seq<char>) -> Result<
    Seq<Option<ContractModel>>,
    Diagnostic,
> {
    match scan_contracts(target, r_file.0@) {
        Err(d) => Err(d),
        Ok((names, entry_opt)) => match entry_opt {
            None => Err(Diagnostic { kind: ErrorKind::EntryContractNotFound, span: None }),
            Some(e) => resolve_contracts_spec(
                names,
                r_file.0@,
                seq![e as usize],
                0,
                none_contracts(r_file.0@.len() as int),
                r_file.0@.len() as nat,
            ),
        },
    }
}

/// Scans the contract list: applies contract attributes, checks the global
/// contract namespace, and finds the entry contract, exactly as
/// `scan_contracts` reads the list.
#[verifier::loop_isolation(false)]
#[verifier::rlimit(60)]
fn scan_contract_list(r_file: &RFile, contract_name: &String) -> (r: Result<
    (NameTable, Option<usize>, Vec<Attributes>),
    Diagnostic,
>)
    ensures
        match r {
            Ok(t) => scan_contracts(contract_name@, r_file.0@) == Ok::<
                (Seq<Seq<char>>, Option<int>),
                Diagnostic,
            >((t.0@, opt_index(t.1))) && t.2@.len() == r_file.0@.len(),
            Err(d) => scan_contracts(contract_name@, r_file.0@) == Err::<
                (Seq<Seq<char>>, Option<int>),
                Diagnostic,
            >(d),
        },
{
    let ghost target = contract_name@;
    let ncontracts = r_file.0.len();
    let mut contract_names = NameTable::new();
    let mut entry_index: Option<usize> = None;
    let mut contract_attributes: Vec<Attributes> = Vec::new();

    proof {
        assert(r_file.0@.take(0) =~= Seq::<Located<WithAttributes<RContract>>>::empty());
    }
    let mut ci: usize = 0;
    while ci < ncontracts
        invariant
            0 <= ci <= ncontracts,
            ncontracts == r_file.0@.len(),
            contract_names@.len() == ci,
            contract_attributes@.len() == ci,
            scan_contracts(target, r_file.0@.take(ci as int)) == Ok::<
                (Seq<Seq<char>>, Option<int>),
                Diagnostic,
            >((contract_names@, opt_index(entry_index))),
        decreases ncontracts - ci,
    {
        let c = &r_file.0[ci];
        proof {
            assert(r_file.0@.take(ci + 1).drop_last() =~= r_file.0@.take(ci as int));
            assert(r_file.0@.take(ci + 1).last() == r_file.0@[ci as int]);
        }
        let mut cattrs = Attributes::new();
        let nattrs = c.inner.attributes.len();
        proof {
            assert(c.inner.attributes@.take(0) =~= Seq::<Located<RAttribute>>::empty());
        }
        let mut ai: usize = 0;
        while ai < nattrs
            invariant
                0 <= ai <= nattrs,
                nattrs == c.inner.attributes@.len(),
                scan_contract_attrs(c.inner.attributes@.take(ai as int)) == Ok::<(), Diagnostic>(
                    (),
                ),
            decreases nattrs - ai,
        {
            let a = &c.inner.attributes[ai];
            proof {
                assert(c.inner.attributes@.take(ai + 1).drop_last() =~= c.inner.attributes@.take(
                    ai as int,
                ));
                assert(c.inner.attributes@.take(ai + 1).last() == c.inner.attributes@[ai as int]);
            }
            let parsed = Attribute::from_r_attribute(&a.inner);
            match parsed {
                None => {
                    proof {
                        lemma_scan_contract_attrs_err_persists(c.inner.attributes@, ai + 1);
                        lemma_scan_contracts_err_persists(target, r_file.0@, ci + 1);
                    }
                    return Err(
                        Diagnostic {
                            kind: ErrorKind::InvalidContractAttribute,
                            span: Some(a.span),
                        },
                    );
                },
                Some(at) => {
                    if !at.is_contract_attribute() {
                        proof {
                            lemma_scan_contract_attrs_err_persists(c.inner.attributes@, ai + 1);
                            lemma_scan_contracts_err_persists(target, r_file.0@, ci + 1);
                        }
                        return Err(
                            Diagnostic {
                                kind: ErrorKind::InvalidContractAttribute,
                                span: Some(a.span),
                            },
                        );
                    }
                    cattrs.apply(at);
                },
            }
            ai += 1;
        }
        proof {
            assert(c.inner.attributes@.take(nattrs as int) =~= c.inner.attributes@);
        }
        let name = c.inner.inner.inner.name_str();
        if contract_names.lookup(name).is_some() {
            proof {
                lemma_scan_contracts_err_persists(target, r_file.0@, ci + 1);
            }
            return Err(
                Diagnostic {
                    kind: ErrorKind::DuplicateName,
                    span: Some(c.inner.inner.inner.name.span),
                },
            );
        }
        contract_names.push(name.to_owned());
        if str_eq(name, contract_name.as_str()) {
            entry_index = Some(ci);
        }
        contract_attributes.push(cattrs);
        ci += 1;
    }
    proof {
        assert(r_file.0@.take(ncontracts as int) =~= r_file.0@);
    }
    Ok((contract_names, entry_index, contract_attributes))
}

/// Runs the contract work queue to exhaustion: one `pre_process_contract`
/// per popped index, recording results and enqueuing unseen dependencies,
/// exactly as `resolve_contracts_spec` unfolds.
#[verifier::loop_isolation(false)]
#[verifier::rlimit(100)]
#[verifier::spinoff_prover]
fn run_contract_queue(
    r_file: &RFile,
    contract_names: &NameTable,
    contract_attributes: &Vec<Attributes>,
    entry_index: usize,
    contracts_queue: &mut DedupQueue,
    out: &mut Vec<Option<Contract>>,
    contracts_dependency_tree: &mut DependencyTree,
    Ghost(goal): Ghost<Result<Seq<Option<ContractModel>>, Diagnostic>>,
) -> (r: Result<(), Diagnostic>)
    requires
        contract_names@.len() == r_file.0@.len(),
        contract_attributes@.len() == r_file.0@.len(),
        entry_index < r_file.0@.len(),
        old(contracts_queue).wf(),
        old(contracts_queue).capacity() == r_file.0@.len(),
        old(contracts_queue).head == 0,
        old(contracts_queue).items@ =~= seq![entry_index],
        old(out)@.len() == r_file.0@.len(),
        forall|j: int| 0 <= j < old(out)@.len() ==> old(out)@[j] is None,
        goal == resolve_contracts_spec(
            contract_names@,
            r_file.0@,
            seq![entry_index],
            0,
            none_contracts(r_file.0@.len() as int),
            r_file.0@.len() as nat,
        ),
    ensures
        match r {
            Ok(u) => ({
                let q = *final(contracts_queue);
                let o = final(out)@;
                &&& goal == Ok::<Seq<Option<ContractModel>>, Diagnostic>(contracts_model(o))
                &&& o.len() == r_file.0@.len()
                &&& q.wf()
                &&& q.items@.contains(entry_index)
                &&& (forall|t: int|
                    0 <= t < q.head ==> o[#[trigger] q.items@[t] as int] is Some)
                &&& (forall|i: int|
                    0 <= i < o.len() && (#[trigger] o[i]) is Some ==> q.items@.take(
                        q.head as int,
                    ).contains(i as usize))
                &&& (forall|i: int|
                    0 <= i < o.len() && (#[trigger] o[i]) is Some ==> contract_ok(
                        contract_names@,
                        r_file.0@[i],
                        o[i]->Some_0,
                    ))
                &&& (forall|i: int, d: usize|
                    0 <= i < o.len() && o[i] is Some && (
                    #[trigger] o[i]->Some_0.dependencies@.contains(d)) ==> d < o.len()
                        && q.items@.contains(d))
                &&& (forall|t: int|
                    0 <= t < q.items@.len() ==> reachable(
                        (|a: int, b: int| contract_edge(o, a, b)),
                        entry_index as int,
                        #[trigger] q.items@[t] as int,
                    ))
                &&& q.head == q.items@.len()
            }),
            Err(d) => goal == Err::<Seq<Option<ContractModel>>, Diagnostic>(d),
        },
{
    let ghost names = contract_names@;
    let ncontracts = r_file.0.len();
    proof {
        assert(contracts_model(out@) =~= none_contracts(ncontracts as int));
        assert(contracts_queue.items@[0] == entry_index);
        assert(contracts_queue.items@.contains(entry_index));
        let e0 = (|a: int, b: int| contract_edge(out@, a, b));
        assert(reaches(e0, entry_index as int, entry_index as int, 0nat));
        assert(reachable(e0, entry_index as int, entry_index as int));
    }
    loop
        invariant
            contracts_queue.wf(),
            contracts_queue.capacity() == ncontracts,
            out@.len() == ncontracts,
            entry_index < ncontracts,
            contracts_queue.items@.contains(entry_index),
            forall|t: int|
                0 <= t < contracts_queue.head ==> out@[#[trigger] contracts_queue.items@[t] as int]
                    is Some,
            forall|i: int|
                0 <= i < ncontracts && (#[trigger] out@[i]) is Some ==> contracts_queue.items@.take(
                    contracts_queue.head as int,
                ).contains(i as usize),
            forall|i: int|
                0 <= i < ncontracts && (#[trigger] out@[i]) is Some ==> contract_ok(
                    names,
                    r_file.0@[i],
                    out@[i]->Some_0,
                ),
            forall|i: int, d: usize|
                0 <= i < ncontracts && out@[i] is Some && (#[trigger] out@[i]->Some_0.dependencies@.contains(
                    d,
                )) ==> d < ncontracts && contracts_queue.items@.contains(d),
            forall|t: int|
                0 <= t < contracts_queue.items@.len() ==> reachable(
                    (|a: int, b: int| contract_edge(out@, a, b)),
                    entry_index as int,
                    #[trigger] contracts_queue.items@[t] as int,
                ),
            resolve_contracts_spec(
                names,
                r_file.0@,
                contracts_queue.items@,
                contracts_queue.head as int,
                contracts_model(out@),
                (ncontracts - contracts_queue.head) as nat,
            ) == goal,
        decreases ncontracts - contracts_queue.head,
    {
        let ghost head0 = contracts_queue.head;
        let ghost items0 = contracts_queue.items@;
        let next = contracts_queue.pop();
        match next {
            None => {
                break ;
            },
            Some(index) => {
                let ghost out0 = out@;
                let processed = pre_process_contract(
                    &r_file.0[index],
                    &contract_attributes[index],
                    &contract_names,
                );
                let contract = match processed {
                    Ok(c) => c,
                    Err(d) => {
                        proof {
                            assert(items0[head0 as int] == index);
                            reveal_with_fuel(resolve_contracts_spec, 2);
                            assert(resolve_contracts_spec(
                                names,
                                r_file.0@,
                                items0,
                                head0 as int,
                                contracts_model(out0),
                                (ncontracts - head0) as nat,
                            ) == Err::<Seq<Option<ContractModel>>, Diagnostic>(d));
                        }
                        return Err(d);
                    },
                };
                proof {
                    assert(forall|x: usize|
                        as_set(contract.dependencies@).contains(x) ==> x < names.len()) by {
                        reveal(contract_ok);
                    }
                    assert(out@[index as int] is None) by {
                        if out@[index as int] is Some {
                            assert(items0.take(head0 as int).contains(index));
                            let t = choose|t: int|
                                0 <= t < head0 && items0.take(head0 as int)[t] == index;
                            assert(items0[t] == items0[head0 as int]);
                        }
                    }
                }
                let ghost new_out = out@.update(index as int, Some(contract));
                proof {
                    assert forall|a: int, b: int|
                        contract_edge(out0, a, b) implies contract_edge(new_out, a, b) by {
                        assert(a != index);
                    }
                    assert forall|t: int|
                        0 <= t < contracts_queue.items@.len() implies reachable(
                            (|a: int, b: int| contract_edge(new_out, a, b)),
                            entry_index as int,
                            #[trigger] contracts_queue.items@[t] as int,
                        ) by {
                        let e0 = (|a: int, b: int| contract_edge(out0, a, b));
                        let kk = choose|kk: nat|
                            #[trigger] reaches(
                                e0,
                                entry_index as int,
                                contracts_queue.items@[t] as int,
                                kk,
                            );
                        lemma_reaches_mono(
                            e0,
                            (|a: int, b: int| contract_edge(new_out, a, b)),
                            entry_index as int,
                            contracts_queue.items@[t] as int,
                            kk,
                        );
                    }
                }
                proof {
                    assert(contract.dependencies@.skip(0) =~= contract.dependencies@);
                }
                let ndeps = contract.dependencies.len();
                let mut t: usize = 0;
                while t < ndeps
                    invariant
                        0 <= t <= ndeps,
                        ndeps == contract.dependencies@.len(),
                        contracts_queue.wf(),
                        contracts_queue.capacity() == ncontracts,
                        contracts_queue.head == head0 + 1,
                        items0.is_prefix_of(contracts_queue.items@),
                        enqueue_new(contracts_queue.items@, contract.dependencies@.skip(t as int))
                            == enqueue_new(items0, contract.dependencies@),
                        forall|j: int|
                            0 <= j < t ==> contracts_queue.items@.contains(
                                #[trigger] contract.dependencies@[j],
                            ),
                        forall|tt: int|
                            0 <= tt < contracts_queue.items@.len() ==> reachable(
                                (|a: int, b: int| contract_edge(new_out, a, b)),
                                entry_index as int,
                                #[trigger] contracts_queue.items@[tt] as int,
                            ),
                    decreases ndeps - t,
                {
                    let d = contract.dependencies[t];
                    proof {
                        assert(contract.dependencies@.contains(d));
                        assert(as_set(contract.dependencies@).contains(d));
                    }
                    let ghost items_pre = contracts_queue.items@;
                    proof {
                        assert(contract.dependencies@.skip(t as int).first()
                            == contract.dependencies@[t as int]);
                        assert(contract.dependencies@.skip(t as int).skip(1)
                            =~= contract.dependencies@.skip(t + 1));
                    }
                    contracts_queue.insert_if_needed(d);
                    contracts_dependency_tree.insert_if_needed(index, d);
                    proof {
                        assert(enqueue_new(items_pre, contract.dependencies@.skip(t as int))
                            == enqueue_new(contracts_queue.items@, contract.dependencies@.skip(
                            t + 1,
                        )));
                        assert forall|j: int|
                            0 <= j < t + 1 implies contracts_queue.items@.contains(
                            #[trigger] contract.dependencies@[j],
                        ) by {
                            if j < t {
                                let w = choose|w: int|
                                    0 <= w < items_pre.len() && items_pre[w]
                                        == contract.dependencies@[j];
                                assert(contracts_queue.items@[w] == contract.dependencies@[j]);
                            } else {
                                if items_pre.contains(d) {
                                    let w = choose|w: int|
                                        0 <= w < items_pre.len() && items_pre[w] == d;
                                    assert(contracts_queue.items@[w] == d);
                                } else {
                                    assert(contracts_queue.items@.last() == d);
                                }
                            }
                        }
                        if !items_pre.contains(d) {
                            let e = (|a: int, b: int| contract_edge(new_out, a, b));
                            assert(items_pre[head0 as int] == index);
                            let kk = choose|kk: nat|
                                #[trigger] reaches(e, entry_index as int, index as int, kk);
                            assert(new_out[index as int]->Some_0.dependencies@.contains(d));
                            assert(e(index as int, d as int));
                            assert(reaches(e, entry_index as int, d as int, (kk + 1) as nat));
                            assert forall|tt: int|
                                0 <= tt < contracts_queue.items@.len() implies reachable(
                                    e,
                                    entry_index as int,
                                    #[trigger] contracts_queue.items@[tt] as int,
                                ) by {
                                if tt < items_pre.len() {
                                    assert(contracts_queue.items@[tt] == items_pre[tt]);
                                } else {
                                    assert(contracts_queue.items@[tt] == d);
                                }
                            }
                        }
                    }
                    t += 1;
                }
                out.set(index, Some(contract));
                proof {
                    assert(out@ =~= new_out);
                    assert(contract_ok(names, r_file.0@[index as int], out@[index as int]->Some_0));
                    // one unfolding of the traversal spec matches this iteration
                    let cm = resolve_contract_spec(names, r_file.0@[index as int])->Ok_0;
                    assert(contract.dependencies@.skip(ndeps as int) =~= Seq::<usize>::empty());
                    assert(contracts_queue.items@ == enqueue_new(items0, cm.deps));
                    assert(contracts_model(out@) =~= contracts_model(out0).update(
                        index as int,
                        Some(cm),
                    ));
                    assert(items0[head0 as int] == index);
                    reveal_with_fuel(resolve_contracts_spec, 2);
                    assert(resolve_contracts_spec(
                        names,
                        r_file.0@,
                        items0,
                        head0 as int,
                        contracts_model(out0),
                        (ncontracts - head0) as nat,
                    ) == resolve_contracts_spec(
                        names,
                        r_file.0@,
                        contracts_queue.items@,
                        head0 + 1,
                        contracts_model(out@),
                        (ncontracts - head0 - 1) as nat,
                    ));
                    assert forall|tt: int|
                        0 <= tt < contracts_queue.head implies out@[#[trigger] contracts_queue.items@[tt] as int]
                        is Some by {
                        if tt < head0 {
                            assert(contracts_queue.items@[tt] == items0[tt]);
                            assert(out0[items0[tt] as int] is Some);
                        } else {
                            assert(contracts_queue.items@[tt] == items0[head0 as int]);
                            assert(items0[head0 as int] == index);
                        }
                    }
                    assert forall|i: int|
                        0 <= i < ncontracts && (#[trigger] out@[i]) is Some implies contracts_queue.items@.take(
                            contracts_queue.head as int,
                        ).contains(i as usize) by {
                        if i == index as int {
                            assert(contracts_queue.items@.take(contracts_queue.head as int)[head0 as int]
                                == index);
                        } else {
                            assert(out0[i] is Some);
                            let tt = choose|tt: int|
                                0 <= tt < head0 && items0.take(head0 as int)[tt] == i as usize;
                            assert(contracts_queue.items@.take(contracts_queue.head as int)[tt] == i
                                as usize);
                        }
                    }
                    assert forall|i: int, d: usize|
                        0 <= i < ncontracts && out@[i] is Some && (#[trigger] out@[i]->Some_0.dependencies@.contains(
                            d,
                        )) implies d < ncontracts && contracts_queue.items@.contains(d) by {
                        if i == index as int {
                            assert(as_set(out@[i]->Some_0.dependencies@).contains(d));
                        } else {
                            assert(out0[i] is Some);
                            assert(items0.contains(d));
                            let jj = choose|jj: int| 0 <= jj < items0.len() && items0[jj] == d;
                            assert(contracts_queue.items@[jj] == d);
                        }
                    }
                    assert(contracts_queue.items@.contains(entry_index)) by {
                        let jj = choose|jj: int|
                            0 <= jj < items0.len() && items0[jj] == entry_index;
                        assert(contracts_queue.items@[jj] == entry_index);
                    }
                }
            },
        }
    }
    proof {
        reveal_with_fuel(resolve_contracts_spec, 2);
        assert(goal == Ok::<Seq<Option<ContractModel>>, Diagnostic>(contracts_model(out@)));
    }

    Ok(())
}

/// Resolves the contracts reachable from the entry contract, in work-queue
/// order, recording every discovered dependency edge.
#[verifier::loop_isolation(false)]
#[verifier::rlimit(100)]
#[verifier::spinoff_prover]
fn resolve_contracts(
    r_file: &RFile,
    contract_names: &NameTable,
    contract_attributes: &Vec<Attributes>,
    entry_index: usize,
) -> (r: Result<Vec<Option<Contract>>, Diagnostic>)
    requires
        contract_names@.len() == r_file.0@.len(),
        contract_attributes@.len() == r_file.0@.len(),
        entry_index < r_file.0@.len(),
    ensures
        ({
            let spec_r = resolve_contracts_spec(
                contract_names@,
                r_file.0@,
                seq![entry_index],
                0,
                none_contracts(r_file.0@.len() as int),
                r_file.0@.len() as nat,
            );
            match r {
                Ok(out) => spec_r == Ok::<Seq<Option<ContractModel>>, Diagnostic>(
                    contracts_model(out@),
                ),
                Err(d) => spec_r == Err::<Seq<Option<ContractModel>>, Diagnostic>(d),
            }
        }),
        r matches Ok(out) ==> ({
            let names = contract_names@;
            &&& out@.len() == r_file.0@.len()
            &&& out@[entry_index as int] is Some
            &&& (forall|i: int, d: usize|
                0 <= i < out@.len() && out@[i] is Some && (#[trigger] out@[i]->Some_0.dependencies@.contains(
                    d,
                )) ==> d < out@.len() && out@[d as int] is Some)
            &&& (forall|i: int|
                0 <= i < out@.len() && (#[trigger] out@[i]) is Some ==> reachable(
                    (|a: int, b: int| contract_edge(out@, a, b)),
                    entry_index as int,
                    i,
                ))
            &&& (forall|i: int|
                0 <= i < out@.len() && (#[trigger] out@[i]) is Some ==> contract_ok(
                    names,
                    r_file.0@[i],
                    out@[i]->Some_0,
                ))
        }),
{
    let ghost names = contract_names@;
    let ncontracts = r_file.0.len();
    let mut out: Vec<Option<Contract>> = Vec::new();
    let mut k: usize = 0;
    while k < ncontracts
        invariant
            k <= ncontracts,
            out@.len() == k,
            forall|j: int| 0 <= j < k ==> out@[j] is None,
        decreases ncontracts - k,
    {
        out.push(None);
        k += 1;
    }

    let mut contracts_queue = DedupQueue::new(ncontracts);
    contracts_queue.insert_if_needed(entry_index);
    let mut contracts_dependency_tree = DependencyTree::new();
    let ghost goal = resolve_contracts_spec(
        names,
        r_file.0@,
        seq![entry_index],
        0,
        none_contracts(ncontracts as int),
        ncontracts as nat,
    );
    proof {
        assert(contracts_model(out@) =~= none_contracts(ncontracts as int));
        assert(contracts_queue.items@ =~= seq![entry_index]);
        assert(contracts_queue.items@[0] == entry_index);
        assert(contracts_queue.items@.contains(entry_index));
        let e0 = (|a: int, b: int| contract_edge(out@, a, b));
        assert(reaches(e0, entry_index as int, entry_index as int, 0nat));
        assert(reachable(e0, entry_index as int, entry_index as int));
    }

    let queue_result = run_contract_queue(
        r_file,
        contract_names,
        contract_attributes,
        entry_index,
        &mut contracts_queue,
        &mut out,
        &mut contracts_dependency_tree,
        Ghost(goal),
    );
    match queue_result {
        Ok(u) => {},
        Err(d) => {
            return Err(d);
        },
    }

    proof {
        assert forall|i: int, d: usize|
            0 <= i < ncontracts && out@[i] is Some && (#[trigger] out@[i]->Some_0.dependencies@.contains(
                d,
            )) implies d < ncontracts && out@[d as int] is Some by {
            assert(contracts_queue.items@.contains(d));
            let tt = choose|tt: int|
                0 <= tt < contracts_queue.items@.len() && contracts_queue.items@[tt] == d;
            assert(out@[contracts_queue.items@[tt] as int] is Some);
        }
        assert(out@[entry_index as int] is Some) by {
            let tt = choose|tt: int|
                0 <= tt < contracts_queue.items@.len() && contracts_queue.items@[tt]
                    == entry_index;
            assert(out@[contracts_queue.items@[tt] as int] is Some);
        }
    }
    Ok(out)
}

/// Resolves a whole source file from its entry-point contract name: validates
/// the contract namespace and attributes, then resolves exactly the contracts
/// reachable from the entry point, each keyed by its source index.
pub fn pre_process(r_file: &RFile, contract_name: String) -> (r: Result<
    Vec<Option<Contract>>,
    Diagnostic,
>)
    ensures
        r matches Ok(out) ==> pre_process_spec(*r_file, contract_name@) == Ok::<
            Seq<Option<ContractModel>>,
            Diagnostic,
        >(contracts_model(out@)),
        r matches Err(d) ==> pre_process_spec(*r_file, contract_name@) == Err::<
            Seq<Option<ContractModel>>,
            Diagnostic,
        >(d),
        r matches Ok(out) ==> ({
            let scan = scan_contracts(contract_name@, r_file.0@);
            let names = scan->Ok_0.0;
            &&& scan is Ok
            &&& distinct_names(names)
            &&& scan->Ok_0.1 matches Some(entry) && (0 <= entry < out@.len() && out@[entry]
                is Some && (forall|i: int|
                0 <= i < out@.len() && (#[trigger] out@[i]) is Some ==> reachable(
                    (|a: int, b: int| contract_edge(out@, a, b)),
                    entry,
                    i,
                )))
            &&& out@.len() == r_file.0@.len()
            &&& (forall|i: int, d: usize|
                0 <= i < out@.len() && out@[i] is Some && (#[trigger] out@[i]->Some_0.dependencies@.contains(
                    d,
                )) ==> d < out@.len() && out@[d as int] is Some)
            &&& (forall|i: int|
                0 <= i < out@.len() && (#[trigger] out@[i]) is Some ==> contract_ok(
                    names,
                    r_file.0@[i],
                    out@[i]->Some_0,
                ))
        }),
        r matches Err(d) ==> ({
            let scan = scan_contracts(contract_name@, r_file.0@);
            if scan is Err {
                d == scan->Err_0
            } else if scan->Ok_0.1 is None {
                d == (Diagnostic { kind: ErrorKind::EntryContractNotFound, span: None })
            } else {
                true
            }
        }),
{
    let scanned = match scan_contract_list(r_file, &contract_name) {
        Ok(t) => t,
        Err(d) => {
            return Err(d);
        },
    };
    let (contract_names, entry_opt, contract_attributes) = scanned;
    let entry_index = match entry_opt {
        Some(e) => e,
        None => {
            return Err(Diagnostic { kind: ErrorKind::EntryContractNotFound, span: None });
        },
    };
    proof {
        lemma_scan_contracts_ok(
            contract_name@,
            r_file.0@,
            contract_names@,
            opt_index(Some(entry_index)),
        );
        assert(seq![(entry_index as int) as usize] =~= seq![entry_index]);
    }
    resolve_contracts(r_file, &contract_names, &contract_attributes, entry_index)
}


} // verus!
