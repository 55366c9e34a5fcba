use a3s_vec::index::ordinals::OrdinalTable;
use a3s_vec::index::scalar_filter::{
    CmpOp, ScalarFilter, ScalarIndex, ScalarIndexRegistry, ScalarKey,
};
use roaring::RoaringTreemap;

fn set(values: &[u64]) -> RoaringTreemap {
    values.iter().copied().collect()
}

fn members(bitmap: &RoaringTreemap) -> Vec<u64> {
    bitmap.iter().collect()
}

/// The order-preserving key of an `f64`.
fn number(value: f64) -> ScalarKey {
    let bits = if value == 0.0 { 0.0_f64 } else { value }.to_bits();
    ScalarKey::Number(if bits >> 63 == 1 { !bits } else { bits | (1 << 63) })
}

fn text(value: &str) -> ScalarKey {
    ScalarKey::Text(value.to_string())
}

/// Ten documents: `lang` is rust (0, 1, 2), go (3, 4), python (5), null
/// (6), missing (7, 8, 9); `stars` is 10 (0), 20 (1, 3), 30 (2), -5 (4).
fn registry(range: bool, wildcard: bool) -> (ScalarIndexRegistry, OrdinalTable) {
    let ids: Vec<String> = (0..10).map(|index| format!("doc-{index}")).collect();
    let table = OrdinalTable::build(&ids).expect("ordinal table must build");
    let lang = ScalarIndex {
        values: vec![
            (text("rust"), set(&[0, 1, 2])),
            (text("go"), set(&[3, 4])),
            (text("python"), set(&[5])),
            (ScalarKey::Null, set(&[6])),
        ],
        present: set(&[0, 1, 2, 3, 4, 5, 6]),
        non_null: set(&[0, 1, 2, 3, 4, 5]),
        range_enabled: range,
        wildcard_enabled: wildcard,
        string_typed: true,
    };
    let stars = ScalarIndex {
        values: vec![
            (number(10.0), set(&[0])),
            (number(20.0), set(&[1, 3])),
            (number(30.0), set(&[2])),
            (number(-5.0), set(&[4])),
        ],
        present: set(&[0, 1, 2, 3, 4]),
        non_null: set(&[0, 1, 2, 3, 4]),
        range_enabled: range,
        wildcard_enabled: false,
        string_typed: false,
    };
    let registry = ScalarIndexRegistry {
        indexes: vec![("lang".to_string(), lang), ("stars".to_string(), stars)],
    };
    (registry, table)
}

fn compare(field: &str, op: CmpOp, key: ScalarKey) -> ScalarFilter {
    ScalarFilter::Compare { field: field.to_string(), op, key: Some(key) }
}

fn eval(filter: &ScalarFilter, range: bool, wildcard: bool) -> Option<(Vec<u64>, bool)> {
    let (registry, table) = registry(range, wildcard);
    registry.evaluate(filter, &table).map(|result| (members(&result.bitmap), result.exact))
}

#[test]
fn equality_and_inequality_use_the_value_bitmaps() {
    assert_eq!(eval(&compare("lang", CmpOp::Eq, text("rust")), false, false), Some((vec![0, 1, 2], true)));
    assert_eq!(eval(&compare("lang", CmpOp::Ne, text("rust")), false, false), Some((vec![3, 4, 5, 6], true)));
    assert_eq!(eval(&compare("stars", CmpOp::Eq, number(20.0)), false, false), Some((vec![1, 3], true)));
    let no_key = ScalarFilter::Compare { field: "lang".to_string(), op: CmpOp::Eq, key: None };
    assert_eq!(eval(&no_key, false, false), Some((vec![], true)));
    assert_eq!(eval(&compare("missing", CmpOp::Eq, text("rust")), false, false), None);
}

#[test]
fn ranges_need_range_lookups_and_compare_like_values() {
    assert_eq!(eval(&compare("stars", CmpOp::Gt, number(10.0)), false, false), None);
    assert_eq!(eval(&compare("stars", CmpOp::Gt, number(10.0)), true, false), Some((vec![1, 2, 3], true)));
    assert_eq!(eval(&compare("stars", CmpOp::Le, number(10.0)), true, false), Some((vec![0, 4], true)));
    assert_eq!(eval(&compare("stars", CmpOp::Lt, number(0.0)), true, false), Some((vec![4], true)));
    assert_eq!(eval(&compare("lang", CmpOp::Ge, text("python")), true, false), Some((vec![0, 1, 2, 5], true)));
    assert_eq!(eval(&compare("stars", CmpOp::Gt, text("a")), true, false), Some((vec![], true)));
}

#[test]
fn membership_null_and_text_tests() {
    let keys = vec![Some(text("go")), Some(text("python")), None];
    let within = ScalarFilter::In { field: "lang".to_string(), keys, negated: false };
    assert_eq!(eval(&within, false, false), Some((vec![3, 4, 5], true)));
    let outside = ScalarFilter::In { field: "lang".to_string(), keys: vec![Some(text("rust"))], negated: true };
    assert_eq!(eval(&outside, false, false), Some((vec![3, 4, 5, 6, 7, 8, 9], true)));
    let null = ScalarFilter::IsNull { field: "lang".to_string(), negated: false };
    assert_eq!(eval(&null, false, false), Some((vec![6, 7, 8, 9], true)));
    let not_null = ScalarFilter::IsNull { field: "lang".to_string(), negated: true };
    assert_eq!(eval(&not_null, false, false), Some((vec![0, 1, 2, 3, 4, 5], true)));
    let like = ScalarFilter::Like { field: "lang".to_string(), pattern: "%o%".to_string(), negated: false };
    assert_eq!(eval(&like, false, false), None);
    assert_eq!(eval(&like, false, true), Some((vec![3, 4, 5], true)));
    let prefix = ScalarFilter::HasPrefix { field: "lang".to_string(), prefix: "ru".to_string(), negated: true };
    assert_eq!(eval(&prefix, false, true), Some((vec![3, 4, 5, 6, 7, 8, 9], true)));
    let suffix = ScalarFilter::HasSuffix { field: "lang".to_string(), suffix: "on".to_string(), negated: false };
    assert_eq!(eval(&suffix, false, true), Some((vec![5], true)));
    let stars_like = ScalarFilter::Like { field: "stars".to_string(), pattern: "%".to_string(), negated: false };
    assert_eq!(eval(&stars_like, false, true), None);
    assert_eq!(eval(&ScalarFilter::ContainAll { field: "lang".to_string() }, true, true), None);
}

#[test]
fn boolean_composition_and_early_conjunctions() {
    let rust = compare("lang", CmpOp::Eq, text("rust"));
    let many = compare("stars", CmpOp::Ge, number(10.0));
    let either = ScalarFilter::Or(Box::new(rust), Box::new(compare("lang", CmpOp::Eq, text("go"))));
    assert_eq!(eval(&either, false, false), Some((vec![0, 1, 2, 3, 4], true)));
    let negation = ScalarFilter::Not(Box::new(compare("lang", CmpOp::Eq, text("rust"))));
    assert_eq!(eval(&negation, false, false), Some((vec![3, 4, 5, 6, 7, 8, 9], true)));
    let small_left = ScalarFilter::And(Box::new(compare("lang", CmpOp::Eq, text("rust"))), Box::new(many));
    assert_eq!(eval(&small_left, true, false), Some((vec![0, 1, 2], false)));
    let empty_left = ScalarFilter::And(
        Box::new(compare("lang", CmpOp::Eq, text("java"))),
        Box::new(compare("missing", CmpOp::Eq, text("x"))),
    );
    assert_eq!(eval(&empty_left, false, false), Some((vec![], true)));
    let unanswerable = ScalarFilter::And(
        Box::new(compare("missing", CmpOp::Eq, text("x"))),
        Box::new(compare("other", CmpOp::Eq, text("y"))),
    );
    assert_eq!(eval(&unanswerable, false, false), None);
    let not_of_inexact = ScalarFilter::Not(Box::new(ScalarFilter::And(
        Box::new(compare("lang", CmpOp::Eq, text("rust"))),
        Box::new(compare("lang", CmpOp::Eq, text("go"))),
    )));
    assert_eq!(eval(&not_of_inexact, false, false), None);
}

#[test]
fn inserting_a_value_joins_its_entry_or_opens_a_new_one() {
    let (mut registry, table) = registry(false, false);
    {
        let lang = &mut registry.indexes[0].1;
        lang.insert_value(text("go"), 7);
        lang.insert_value(text("zig"), 8);
        lang.insert_value(ScalarKey::Null, 9);
        assert_eq!(members(&lang.present), vec![0, 1, 2, 3, 4, 5, 6, 7, 8, 9]);
        assert_eq!(members(&lang.non_null), vec![0, 1, 2, 3, 4, 5, 7, 8]);
        assert_eq!(lang.values.len(), 5);
    }
    let go = registry.evaluate(&compare("lang", CmpOp::Eq, text("go")), &table).unwrap();
    assert_eq!((members(&go.bitmap), go.exact), (vec![3, 4, 7], true));
    let zig = registry.evaluate(&compare("lang", CmpOp::Eq, text("zig")), &table).unwrap();
    assert_eq!(members(&zig.bitmap), vec![8]);
    let nulls = registry.evaluate(&ScalarFilter::IsNull { field: "lang".to_string(), negated: false }, &table);
    assert_eq!(nulls.map(|r| members(&r.bitmap)), Some(vec![6, 9]));
}

#[test]
fn removing_the_last_document_of_a_value_drops_its_entry() {
    let (mut registry, table) = registry(false, false);
    {
        let lang = &mut registry.indexes[0].1;
        lang.remove_value(&text("python"), 5);
        lang.remove_value(&text("rust"), 1);
        assert_eq!(members(&lang.present), vec![0, 2, 3, 4, 6]);
        assert_eq!(members(&lang.non_null), vec![0, 2, 3, 4]);
        assert_eq!(lang.values.len(), 3);
        assert!(lang.values.iter().all(|(key, _)| !matches!(key, ScalarKey::Text(t) if t == "python")));
    }
    let rust = registry.evaluate(&compare("lang", CmpOp::Eq, text("rust")), &table).unwrap();
    assert_eq!(members(&rust.bitmap), vec![0, 2]);
    let python = registry.evaluate(&compare("lang", CmpOp::Eq, text("python")), &table).unwrap();
    assert_eq!(members(&python.bitmap), Vec::<u64>::new());
}

#[test]
fn value_changes_move_documents_between_values() {
    let (mut registry, table) = registry(false, false);
    registry.indexes[0].1.apply_value_changes(vec![
        (0, Some(text("rust")), Some(text("go"))),
        (5, Some(text("python")), None),
        (7, None, Some(ScalarKey::Null)),
        (1, Some(text("rust")), Some(text("rust"))),
    ]);
    let lang = &registry.indexes[0].1;
    assert_eq!(members(&lang.present), vec![0, 1, 2, 3, 4, 6, 7]);
    assert_eq!(members(&lang.non_null), vec![0, 1, 2, 3, 4]);
    let go = registry.evaluate(&compare("lang", CmpOp::Eq, text("go")), &table).unwrap();
    assert_eq!(members(&go.bitmap), vec![0, 3, 4]);
    let rust = registry.evaluate(&compare("lang", CmpOp::Eq, text("rust")), &table).unwrap();
    assert_eq!(members(&rust.bitmap), vec![1, 2]);
    let nulls = registry.evaluate(&ScalarFilter::IsNull { field: "lang".to_string(), negated: false }, &table);
    assert_eq!(nulls.map(|r| members(&r.bitmap)), Some(vec![5, 6, 7, 8, 9]));
}
