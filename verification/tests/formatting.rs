use delta_join::display::{to_ast_string, to_ast_string_stable, AstFormatter, FormatMode};
use delta_join::expr::EvalError;
use delta_join::render::{ArrangementFlavor, TimeFlavor};

#[test]
fn formatter_starts_empty_and_keeps_its_mode() {
    let f = AstFormatter::new(FormatMode::Simple);
    assert!(!f.stable());
    assert_eq!(f.into_str(), "");
    let f2 = AstFormatter::new(FormatMode::Stable);
    assert!(f2.stable());
}

#[test]
fn write_str_appends() {
    let mut f = AstFormatter::new(FormatMode::Simple);
    f.write_str("delta");
    f.write_str(" ");
    f.write_str("query");
    assert_eq!(f.into_str(), "delta query");
}

#[test]
fn write_node_renders_flavors() {
    let mut f = AstFormatter::new(FormatMode::Simple);
    f.write_node(&TimeFlavor::Alt);
    f.write_str("/");
    f.write_node(&TimeFlavor::Neu);
    assert_eq!(f.into_str(), "alt/neu");
}

#[test]
fn write_node_through_box() {
    let mut f = AstFormatter::new(FormatMode::Stable);
    let node: Box<ArrangementFlavor> = Box::new(ArrangementFlavor::Trace);
    f.write_node(&node);
    assert_eq!(f.into_str(), "trace");
}

#[test]
fn ast_string_helpers_render_both_modes() {
    assert_eq!(to_ast_string(&EvalError::TypeError), "type error");
    assert_eq!(to_ast_string_stable(&ArrangementFlavor::Local), "local");
}
