use bytes::Bytes;
use meplang::Span;
use meplang::ErrorKind;
use meplang::ast::Located;
use meplang::ast::RAttribute;
use meplang::ast::RBlock;
use meplang::ast::RBlockItem;
use meplang::ast::RBlockRef;
use meplang::ast::RConstant;
use meplang::ast::RContract;
use meplang::ast::RFile;
use meplang::ast::RFunction;
use meplang::ast::RFunctionArg;
use meplang::ast::RHexLitteral;
use meplang::ast::RVariable;
use meplang::ast::RVariableOrVariableWithField;
use meplang::ast::RVariableWithField;
use meplang::ast::WithAttributes;
use meplang::pre_processing::BlockItem;
use meplang::pre_processing::Push;
use meplang::pre_processing::pre_process;

fn sp(n: usize) -> Span {
    Span { start: n, end: n + 1 }
}

fn loc<T>(n: usize, inner: T) -> Located<T> {
    Located { span: sp(n), inner }
}

fn var(n: usize, s: &str) -> Located<RVariable> {
    loc(n, RVariable(s.to_string()))
}

fn hex_item(n: usize, bytes: &[u8]) -> Located<RBlockItem> {
    loc(n, RBlockItem::HexLitteral(RHexLitteral(Bytes::copy_from_slice(bytes))))
}

fn star_ref(n: usize, name: &str) -> Located<RBlockItem> {
    loc(n, RBlockItem::BlockRef(RBlockRef::Star(RVariable(name.to_string()))))
}

fn esp_ref(n: usize, name: &str) -> Located<RBlockItem> {
    loc(
        n,
        RBlockItem::BlockRef(RBlockRef::Esp(RVariableOrVariableWithField::Variable(RVariable(
            name.to_string(),
        )))),
    )
}

fn esp_field_ref(n: usize, name: &str, field: &str) -> Located<RBlockItem> {
    loc(
        n,
        RBlockItem::BlockRef(RBlockRef::Esp(RVariableOrVariableWithField::VariableWithField(
            RVariableWithField { variable: var(n, name), field: var(n, field) },
        ))),
    )
}

fn push_field(n: usize, func: &str, name: &str, field: &str) -> Located<RBlockItem> {
    loc(
        n,
        RBlockItem::Function(RFunction {
            name: var(n, func),
            arg: loc(
                n,
                RFunctionArg::VariableWithField(RVariableWithField {
                    variable: var(n, name),
                    field: var(n, field),
                }),
            ),
        }),
    )
}

fn push_var(n: usize, func: &str, name: &str) -> Located<RBlockItem> {
    loc(
        n,
        RBlockItem::Function(RFunction {
            name: var(n, func),
            arg: loc(n, RFunctionArg::Variable(RVariable(name.to_string()))),
        }),
    )
}

fn block(n: usize, name: &str, items: Vec<Located<RBlockItem>>) -> Located<WithAttributes<RBlock>> {
    block_with_attrs(n, name, Vec::new(), items)
}

fn block_with_attrs(
    n: usize,
    name: &str,
    attributes: Vec<Located<RAttribute>>,
    items: Vec<Located<RBlockItem>>,
) -> Located<WithAttributes<RBlock>> {
    loc(n, WithAttributes { attributes, inner: loc(n, RBlock { name: var(n, name), items }) })
}

fn attr(n: usize, name: &str) -> Located<RAttribute> {
    loc(n, RAttribute { name: var(n, name), arg: None })
}

fn constant(n: usize, name: &str, value: &[u8]) -> Located<RConstant> {
    loc(
        n,
        RConstant {
            name: var(n, name),
            value: loc(n, RHexLitteral(Bytes::copy_from_slice(value))),
        },
    )
}

fn contract(
    n: usize,
    name: &str,
    constants: Vec<Located<RConstant>>,
    blocks: Vec<Located<WithAttributes<RBlock>>>,
) -> Located<WithAttributes<RContract>> {
    contract_with_attrs(n, name, Vec::new(), constants, blocks)
}

fn contract_with_attrs(
    n: usize,
    name: &str,
    attributes: Vec<Located<RAttribute>>,
    constants: Vec<Located<RConstant>>,
    blocks: Vec<Located<WithAttributes<RBlock>>>,
) -> Located<WithAttributes<RContract>> {
    loc(
        n,
        WithAttributes {
            attributes,
            inner: loc(n, RContract { name: var(n, name), constants, blocks }),
        },
    )
}

#[test]
fn scenario_single_byte_run() {
    let file = RFile(vec![contract(
        0,
        "C",
        vec![],
        vec![block(1, "main", vec![hex_item(2, &[0x01, 0x02])])],
    )]);
    let out = pre_process(&file, "C".to_string()).unwrap();
    assert_eq!(out.len(), 1);
    let c = out[0].as_ref().unwrap();
    assert_eq!(c.main, 0);
    assert_eq!(c.last, None);
    assert_eq!(c.dependencies, Vec::<usize>::new());
    let main = c.blocks[0].as_ref().unwrap();
    assert_eq!(main.items, vec![BlockItem::Bytes(Bytes::copy_from_slice(&[0x01, 0x02]))]);
    assert_eq!(main.dependencies, Vec::<usize>::new());
}

#[test]
fn coalescing_two_adjacent_literals() {
    let file = RFile(vec![contract(
        0,
        "C",
        vec![],
        vec![block(1, "main", vec![hex_item(2, &[0x01]), hex_item(3, &[0x02])])],
    )]);
    let out = pre_process(&file, "C".to_string()).unwrap();
    let main = out[0].as_ref().unwrap().blocks[0].as_ref().unwrap();
    assert_eq!(main.items, vec![BlockItem::Bytes(Bytes::copy_from_slice(&[0x01, 0x02]))]);
}

#[test]
fn scenario_inline_helper() {
    let file = RFile(vec![contract(
        0,
        "C",
        vec![],
        vec![
            block(1, "main", vec![star_ref(2, "helper")]),
            block(3, "helper", vec![hex_item(4, &[0xff])]),
        ],
    )]);
    let out = pre_process(&file, "C".to_string()).unwrap();
    let c = out[0].as_ref().unwrap();
    assert_eq!(c.blocks.iter().filter(|b| b.is_some()).count(), 2);
    let main = c.blocks[0].as_ref().unwrap();
    assert_eq!(main.items, vec![BlockItem::Block(1)]);
    assert_eq!(main.dependencies, vec![1]);
    let helper = c.blocks[1].as_ref().unwrap();
    assert_eq!(helper.items, vec![BlockItem::Bytes(Bytes::copy_from_slice(&[0xff]))]);
}

#[test]
fn scenario_push_block_pc() {
    let file = RFile(vec![contract(
        0,
        "C",
        vec![],
        vec![
            block(1, "main", vec![push_field(2, "push", "other", "pc")]),
            block(3, "other", vec![hex_item(4, &[0xff])]),
        ],
    )]);
    let out = pre_process(&file, "C".to_string()).unwrap();
    let c = out[0].as_ref().unwrap();
    let main = c.blocks[0].as_ref().unwrap();
    assert_eq!(main.items, vec![BlockItem::Push(Push::BlockPc(1))]);
    assert_eq!(main.dependencies, vec![1]);
    assert!(c.blocks[1].is_some());
}

#[test]
fn scenario_push_pc_then_inline_conflicts() {
    let file = RFile(vec![contract(
        0,
        "C",
        vec![],
        vec![
            block(1, "main", vec![push_field(2, "push", "other", "pc"), star_ref(3, "other")]),
            block(4, "other", vec![hex_item(5, &[0xff])]),
        ],
    )]);
    let err = pre_process(&file, "C".to_string()).unwrap_err();
    assert_eq!(err.kind, ErrorKind::AddressingConflict);
}

#[test]
fn scenario_missing_entry_contract() {
    let file = RFile(vec![contract(0, "C", vec![], vec![block(1, "main", vec![])])]);
    let err = pre_process(&file, "D".to_string()).unwrap_err();
    assert_eq!(err.kind, ErrorKind::EntryContractNotFound);
    assert_eq!(err.span, None);
}

#[test]
fn inline_twice_conflicts() {
    let file = RFile(vec![contract(
        0,
        "C",
        vec![],
        vec![
            block(1, "main", vec![star_ref(2, "helper"), star_ref(3, "helper")]),
            block(4, "helper", vec![hex_item(5, &[0xff])]),
        ],
    )]);
    let err = pre_process(&file, "C".to_string()).unwrap_err();
    assert_eq!(err.kind, ErrorKind::AddressingConflict);
    assert_eq!(err.span, Some(Span { start: 3, end: 4 }));
}

#[test]
fn addressed_many_times_is_idempotent() {
    let file = RFile(vec![contract(
        0,
        "C",
        vec![],
        vec![
            block(1, "main", vec![esp_ref(2, "helper"), esp_ref(3, "helper"), esp_ref(4, "helper")]),
            block(5, "helper", vec![hex_item(6, &[0xff])]),
        ],
    )]);
    let out = pre_process(&file, "C".to_string()).unwrap();
    let main = out[0].as_ref().unwrap().blocks[0].as_ref().unwrap();
    assert_eq!(main.items, Vec::<BlockItem>::new());
    assert_eq!(main.dependencies, vec![1]);
}

#[test]
fn inline_after_addressed_conflicts() {
    let file = RFile(vec![contract(
        0,
        "C",
        vec![],
        vec![
            block(1, "main", vec![esp_ref(2, "helper"), star_ref(3, "helper")]),
            block(4, "helper", vec![hex_item(5, &[0xff])]),
        ],
    )]);
    let err = pre_process(&file, "C".to_string()).unwrap_err();
    assert_eq!(err.kind, ErrorKind::AddressingConflict);
}

#[test]
fn unreachable_code_is_neither_resolved_nor_validated() {
    // the second contract holds an unknown reference, but is never referenced
    let file = RFile(vec![
        contract(0, "C", vec![], vec![block(1, "main", vec![hex_item(2, &[0x01])])]),
        contract(3, "Dead", vec![], vec![block(4, "main", vec![star_ref(5, "nowhere")])]),
    ]);
    let out = pre_process(&file, "C".to_string()).unwrap();
    assert!(out[0].is_some());
    assert!(out[1].is_none());
}

#[test]
fn unreachable_block_is_neither_resolved_nor_validated() {
    let file = RFile(vec![contract(
        0,
        "C",
        vec![],
        vec![
            block(1, "main", vec![hex_item(2, &[0x01])]),
            block(3, "dead", vec![star_ref(4, "nowhere")]),
        ],
    )]);
    let out = pre_process(&file, "C".to_string()).unwrap();
    let c = out[0].as_ref().unwrap();
    assert!(c.blocks[0].is_some());
    assert!(c.blocks[1].is_none());
}

#[test]
fn constant_of_32_bytes_rejected_31_accepted() {
    let long = [0xabu8; 32];
    let file = RFile(vec![contract(
        0,
        "C",
        vec![constant(1, "K", &long)],
        vec![block(2, "main", vec![])],
    )]);
    let err = pre_process(&file, "C".to_string()).unwrap_err();
    assert_eq!(err.kind, ErrorKind::ConstantTooLarge);

    let short = [0xabu8; 31];
    let file = RFile(vec![contract(
        0,
        "C",
        vec![constant(1, "K", &short)],
        vec![block(2, "main", vec![push_var(3, "push", "K")])],
    )]);
    let out = pre_process(&file, "C".to_string()).unwrap();
    let main = out[0].as_ref().unwrap().blocks[0].as_ref().unwrap();
    assert_eq!(main.items, vec![BlockItem::Push(Push::Constant(Bytes::copy_from_slice(&short)))]);
}

#[test]
fn duplicate_contract_name_reports_second_occurrence() {
    let file = RFile(vec![
        contract(0, "C", vec![], vec![block(1, "main", vec![])]),
        contract(7, "C", vec![], vec![block(8, "main", vec![])]),
    ]);
    let err = pre_process(&file, "C".to_string()).unwrap_err();
    assert_eq!(err.kind, ErrorKind::DuplicateName);
    assert_eq!(err.span, Some(Span { start: 7, end: 8 }));
}

#[test]
fn block_name_colliding_with_contract_name_is_duplicate() {
    let file = RFile(vec![contract(
        0,
        "C",
        vec![],
        vec![block(1, "main", vec![]), block(2, "C", vec![])],
    )]);
    let err = pre_process(&file, "C".to_string()).unwrap_err();
    assert_eq!(err.kind, ErrorKind::DuplicateName);
}

#[test]
fn constant_name_colliding_with_earlier_constant_is_duplicate() {
    let file = RFile(vec![contract(
        0,
        "C",
        vec![constant(1, "K", &[0x01]), constant(2, "K", &[0x02])],
        vec![block(3, "main", vec![])],
    )]);
    let err = pre_process(&file, "C".to_string()).unwrap_err();
    assert_eq!(err.kind, ErrorKind::DuplicateName);
    assert_eq!(err.span, Some(Span { start: 2, end: 3 }));
}

#[test]
fn missing_main_block_fails() {
    let file = RFile(vec![contract(0, "C", vec![], vec![block(1, "start", vec![])])]);
    let err = pre_process(&file, "C".to_string()).unwrap_err();
    assert_eq!(err.kind, ErrorKind::MainBlockNotFound);
}

#[test]
fn unknown_block_reference_fails() {
    let file = RFile(vec![contract(
        0,
        "C",
        vec![],
        vec![block(1, "main", vec![star_ref(2, "ghostly")])],
    )]);
    let err = pre_process(&file, "C".to_string()).unwrap_err();
    assert_eq!(err.kind, ErrorKind::BlockNotFound);
}

#[test]
fn cross_contract_code_reference_records_dependency() {
    let file = RFile(vec![
        contract(0, "C", vec![], vec![block(1, "main", vec![esp_field_ref(2, "D", "code")])]),
        contract(3, "D", vec![], vec![block(4, "main", vec![hex_item(5, &[0x02])])]),
    ]);
    let out = pre_process(&file, "C".to_string()).unwrap();
    let c = out[0].as_ref().unwrap();
    assert_eq!(c.dependencies, vec![1]);
    let main = c.blocks[0].as_ref().unwrap();
    assert_eq!(main.items, vec![BlockItem::Contract(1)]);
    assert!(out[1].is_some());
}

#[test]
fn unknown_field_on_block_reference_fails() {
    let file = RFile(vec![contract(
        0,
        "C",
        vec![],
        vec![block(1, "main", vec![esp_field_ref(2, "C", "size")])],
    )]);
    let err = pre_process(&file, "C".to_string()).unwrap_err();
    assert_eq!(err.kind, ErrorKind::UnknownField);
}

#[test]
fn unknown_contract_code_reference_fails() {
    let file = RFile(vec![contract(
        0,
        "C",
        vec![],
        vec![block(1, "main", vec![esp_field_ref(2, "Nowhere", "code")])],
    )]);
    let err = pre_process(&file, "C".to_string()).unwrap_err();
    assert_eq!(err.kind, ErrorKind::ContractNotFound);
}

#[test]
fn unknown_function_fails() {
    let file = RFile(vec![contract(
        0,
        "C",
        vec![],
        vec![block(1, "main", vec![push_field(2, "jump", "main", "pc")])],
    )]);
    let err = pre_process(&file, "C".to_string()).unwrap_err();
    assert_eq!(err.kind, ErrorKind::UnknownFunction);
}

#[test]
fn push_name_is_case_insensitive() {
    let file = RFile(vec![contract(
        0,
        "C",
        vec![],
        vec![
            block(1, "main", vec![push_field(2, "PUSH", "other", "size")]),
            block(3, "other", vec![hex_item(4, &[0xff])]),
        ],
    )]);
    let out = pre_process(&file, "C".to_string()).unwrap();
    let main = out[0].as_ref().unwrap().blocks[0].as_ref().unwrap();
    assert_eq!(main.items, vec![BlockItem::Push(Push::BlockSize(1))]);
}

#[test]
fn push_unknown_constant_fails() {
    let file = RFile(vec![contract(
        0,
        "C",
        vec![],
        vec![block(1, "main", vec![push_var(2, "push", "K")])],
    )]);
    let err = pre_process(&file, "C".to_string()).unwrap_err();
    assert_eq!(err.kind, ErrorKind::ConstantNotFound);
}

#[test]
fn push_unknown_target_fails() {
    let file = RFile(vec![contract(
        0,
        "C",
        vec![],
        vec![block(1, "main", vec![push_field(2, "push", "nowhere", "pc")])],
    )]);
    let err = pre_process(&file, "C".to_string()).unwrap_err();
    assert_eq!(err.kind, ErrorKind::PushTargetNotFound);
}

#[test]
fn push_unknown_field_fails() {
    let file = RFile(vec![contract(
        0,
        "C",
        vec![],
        vec![block(1, "main", vec![push_field(2, "push", "main", "offset")])],
    )]);
    let err = pre_process(&file, "C".to_string()).unwrap_err();
    assert_eq!(err.kind, ErrorKind::UnknownField);
}

#[test]
fn push_contract_pc_records_contract_dependency() {
    let file = RFile(vec![
        contract(0, "C", vec![], vec![block(1, "main", vec![push_field(2, "push", "D", "pc")])]),
        contract(3, "D", vec![], vec![block(4, "main", vec![hex_item(5, &[0x02])])]),
    ]);
    let out = pre_process(&file, "C".to_string()).unwrap();
    let c = out[0].as_ref().unwrap();
    let main = c.blocks[0].as_ref().unwrap();
    assert_eq!(main.items, vec![BlockItem::Push(Push::ContractPc(1))]);
    assert_eq!(c.dependencies, vec![1]);
    assert!(out[1].is_some());
}

#[test]
fn last_attribute_marks_block() {
    let file = RFile(vec![contract(
        0,
        "C",
        vec![],
        vec![
            block(1, "main", vec![esp_ref(2, "tail")]),
            block_with_attrs(3, "tail", vec![attr(4, "last")], vec![hex_item(5, &[0x00])]),
        ],
    )]);
    let out = pre_process(&file, "C".to_string()).unwrap();
    assert_eq!(out[0].as_ref().unwrap().last, Some(1));
}

#[test]
fn second_last_attribute_fails() {
    let file = RFile(vec![contract(
        0,
        "C",
        vec![],
        vec![
            block_with_attrs(1, "main", vec![attr(2, "last")], vec![]),
            block_with_attrs(3, "tail", vec![attr(4, "last")], vec![]),
        ],
    )]);
    let err = pre_process(&file, "C".to_string()).unwrap_err();
    assert_eq!(err.kind, ErrorKind::DuplicateLast);
    assert_eq!(err.span, Some(Span { start: 4, end: 5 }));
}

#[test]
fn last_attribute_invalid_on_contract() {
    let file = RFile(vec![contract_with_attrs(
        0,
        "C",
        vec![attr(1, "last")],
        vec![],
        vec![block(2, "main", vec![])],
    )]);
    let err = pre_process(&file, "C".to_string()).unwrap_err();
    assert_eq!(err.kind, ErrorKind::InvalidContractAttribute);
}

#[test]
fn unknown_attribute_invalid_on_block() {
    let file = RFile(vec![contract(
        0,
        "C",
        vec![],
        vec![block_with_attrs(1, "main", vec![attr(2, "inline")], vec![])],
    )]);
    let err = pre_process(&file, "C".to_string()).unwrap_err();
    assert_eq!(err.kind, ErrorKind::InvalidBlockAttribute);
}

#[test]
fn diagnostic_message_is_stable() {
    let file = RFile(vec![contract(0, "C", vec![], vec![block(1, "start", vec![])])]);
    let err = pre_process(&file, "C".to_string()).unwrap_err();
    assert_eq!(err.message(), "block `main` not found in this contract");
}
