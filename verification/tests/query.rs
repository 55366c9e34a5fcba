use a3s_vec::iterator::DocIterator;
use a3s_vec::query::{
    unsupported_query_controls, validate_name, validate_query_header, DiskannQueryParams, Fts,
    FtsDefaultOperator, FtsQueryParams,
};
use a3s_vec::ErrorCode;

#[test]
fn diskann_list_size_must_be_positive() {
    let mut params = DiskannQueryParams::new(32);
    assert_eq!(params.list_size(), 32);
    assert!(params.set_list_size(64).is_ok());
    assert_eq!(params.list_size(), 64);
    assert_eq!(params.set_list_size(0).err().expect("zero").code, ErrorCode::InvalidArgument);
    assert_eq!(params.list_size(), 64);
}

#[test]
fn default_operator_parses_ascii_case_insensitively() {
    assert_eq!(FtsDefaultOperator::parse("AND").ok(), Some(FtsDefaultOperator::And));
    assert_eq!(FtsDefaultOperator::parse("oR").ok(), Some(FtsDefaultOperator::Or));
    assert_eq!(FtsDefaultOperator::parse("xor").err().expect("unknown").code, ErrorCode::InvalidArgument);
    assert_eq!(FtsDefaultOperator::And.as_str(), "and");
    let params = FtsQueryParams::new(Some("And")).expect("and");
    assert_eq!(params.default_operator().as_deref(), Some("and"));
    assert_eq!(FtsQueryParams::new(None).expect("none").default_operator(), None);
    let mut params = FtsQueryParams::new(Some("or")).expect("or");
    assert!(params.set_default_operator("nand").is_err());
    assert_eq!(params.default_operator().as_deref(), Some("or"));
}

#[test]
fn fts_strings_reject_blank_text() {
    let mut fts = Fts::new().expect("fts");
    assert!(fts.set_query_string("rust AND verus").is_ok());
    assert_eq!(fts.query_string().as_deref(), Some("rust AND verus"));
    assert_eq!(fts.set_match_string(" \t\u{3000}").err().expect("blank").code, ErrorCode::InvalidArgument);
    assert_eq!(fts.match_string(), None);
    assert!(fts.set_match_string("vector").is_ok());
    assert_eq!(fts.match_string().as_deref(), Some("vector"));
    assert_eq!(fts.query_string().as_deref(), Some("rust AND verus"));
}

#[test]
fn names_and_headers_are_checked() {
    assert!(validate_name("embedding").is_ok());
    assert_eq!(validate_name("  ").err().expect("blank").code, ErrorCode::InvalidArgument);
    assert_eq!(validate_name("a\0b").err().expect("nul").code, ErrorCode::InvalidArgument);
    assert!(validate_query_header("embedding", 10).is_ok());
    assert_eq!(validate_query_header("embedding", 0).err().expect("topk").code, ErrorCode::InvalidArgument);
    let refused = unsupported_query_controls("IVF").err().expect("refused");
    assert_eq!(refused.code, ErrorCode::NotSupported);
    assert_eq!(refused.message, "IVF query controls have no execution consumer");
}

#[test]
fn doc_iterator_yields_in_order_with_its_revision() {
    let mut docs = DocIterator::new(vec!["a", "b", "c"], 42);
    assert_eq!(docs.revision(), 42);
    assert_eq!(docs.next().map(|doc| doc.ok()), Some(Some("a")));
    assert_eq!(docs.next().map(|doc| doc.ok()), Some(Some("b")));
    assert_eq!(docs.next().map(|doc| doc.ok()), Some(Some("c")));
    assert!(docs.next().is_none());
    assert_eq!(docs.revision(), 42);
}
