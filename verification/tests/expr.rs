use rhisto::{compile_expression, ColumnParser, ExprError};

#[test]
fn compile_rewrites_placeholders() {
    let compiled = compile_expression("?1 + ?2 * ?1").unwrap();
    assert_eq!(compiled.text, "_1 + _2 * _1".to_string());
    assert_eq!(compiled.columns, vec![1, 2]);
}

#[test]
fn compile_without_placeholders_keeps_text() {
    let compiled = compile_expression("3 * (4 + 5)").unwrap();
    assert_eq!(compiled.text, "3 * (4 + 5)".to_string());
    assert_eq!(compiled.columns, Vec::<u32>::new());
}

#[test]
fn digitless_placeholder_is_rejected() {
    assert_eq!(compile_expression("? + 1"), Err(ExprError::BadPlaceholder));
    assert_eq!(compile_expression("?"), Err(ExprError::BadPlaceholder));
}

#[test]
fn oversized_placeholder_is_rejected() {
    assert_eq!(
        compile_expression("?4294967296"),
        Err(ExprError::BadPlaceholder)
    );
    let compiled = compile_expression("?4294967295").unwrap();
    assert_eq!(compiled.columns, vec![4294967295]);
    assert_eq!(compiled.text, "_4294967295".to_string());
}

#[test]
fn evaluate_compiled_expression_over_a_row() {
    let compiled = compile_expression("?0 + ?2 * 2").unwrap();
    assert_eq!(compiled.columns, vec![0, 2]);
    let parser = ColumnParser::new(&compiled.columns, ",");
    let vals = parser.parse_row("1.5,99.0,2.25").unwrap();

    let mut ctx = meval::Context::new();
    for (var, val) in compiled.var_names().iter().zip(vals.iter()) {
        ctx.var(var.clone(), val.parse::<f64>().unwrap());
    }
    let result = meval::eval_str_with_context(&compiled.text, &ctx).unwrap();
    assert_eq!(result, 6.0);
}

#[test]
fn binding_identifiers_follow_the_columns() {
    let compiled = compile_expression("?10 + ?0 * ?10").unwrap();
    assert_eq!(compiled.columns, vec![10, 0]);
    assert_eq!(
        compiled.var_names(),
        vec!["_10".to_string(), "_0".to_string()]
    );
}
