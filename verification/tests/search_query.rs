use a3s_vec::multi_query::{MultiQuery, RerankMethod, SubQuery, MAX_SUB_QUERIES};
use a3s_vec::query::{
    ControlKind, DiskannQueryParams, FlatQueryParams, Fts, FtsDefaultOperator, FtsQueryParams,
    GroupBySearchQuery, HnswQueryParams, IvfQueryParams, IvfRabitqQueryParams, QueryControls,
    SearchQuery, F32_ONE_BITS,
};
use a3s_vec::ErrorCode;

fn bits(values: &[f32]) -> Vec<u32> {
    values.iter().map(|value| value.to_bits()).collect()
}

fn code<T: std::fmt::Debug>(result: a3s_vec::Result<T>) -> ErrorCode {
    result.expect_err("must fail").code
}

#[test]
fn dense_queries_need_a_finite_non_empty_vector() {
    let query = SearchQuery::new("embedding", &bits(&[0.5, -1.0]), 5).expect("valid query");
    assert_eq!(query.field_name, "embedding");
    assert_eq!(query.vector, Some(bits(&[0.5, -1.0])));
    assert_eq!(query.topk, 5);
    assert!(query.has_vector());
    assert_eq!(query.params, QueryControls::new());

    assert_eq!(code(SearchQuery::new("embedding", &[], 5)), ErrorCode::InvalidArgument);
    assert_eq!(
        code(SearchQuery::new("embedding", &bits(&[1.0, f32::NAN]), 5)),
        ErrorCode::InvalidArgument
    );
    assert_eq!(
        code(SearchQuery::new("embedding", &bits(&[f32::INFINITY]), 5)),
        ErrorCode::InvalidArgument
    );
    assert_eq!(code(SearchQuery::new(" ", &bits(&[1.0]), 5)), ErrorCode::InvalidArgument);
    assert_eq!(code(SearchQuery::new("embedding", &bits(&[1.0]), 0)), ErrorCode::InvalidArgument);
}

#[test]
fn id_sparse_and_fts_queries_check_their_payloads() {
    let by_id = SearchQuery::by_id("embedding", "doc-1", 3).expect("valid id query");
    assert_eq!(by_id.id.as_deref(), Some("doc-1"));
    assert!(!by_id.has_vector());
    assert_eq!(code(SearchQuery::by_id("embedding", "", 3)), ErrorCode::InvalidArgument);
    assert_eq!(code(SearchQuery::by_id("embedding", "a\0b", 3)), ErrorCode::InvalidArgument);

    let sparse = SearchQuery::sparse("terms", &[3, 9], &bits(&[0.25, 2.0]), 4).expect("sparse");
    assert_eq!(
        sparse.sparse_vector,
        Some(vec![(3, 0.25_f32.to_bits()), (9, 2.0_f32.to_bits())])
    );
    assert_eq!(
        code(SearchQuery::sparse("terms", &[3], &bits(&[0.25, 2.0]), 4)),
        ErrorCode::InvalidArgument
    );

    let mut fts = Fts::new().expect("fts");
    assert_eq!(code(SearchQuery::fts("body", &fts, 4)), ErrorCode::InvalidArgument);
    fts.set_match_string("hello").expect("match string");
    let query = SearchQuery::fts("body", &fts, 4).expect("fts query");
    assert_eq!(query.fts, Some(fts));
}

#[test]
fn setters_replace_payloads_and_keep_other_fields() {
    let mut query = SearchQuery::new("embedding", &bits(&[1.0]), 5).expect("valid query");
    query.set_sparse_vector(&[1], &bits(&[0.5])).expect("sparse");
    assert!(query.vector.is_none());
    assert!(query.sparse_vector.is_some());
    query.set_query_vector(&bits(&[2.0])).expect("dense");
    assert!(query.sparse_vector.is_none());
    assert_eq!(code(query.set_query_vector(&bits(&[f32::NAN]))), ErrorCode::InvalidArgument);
    assert_eq!(query.vector, Some(bits(&[2.0])));

    query.set_filter("price > 3").expect("filter");
    assert_eq!(query.get_filter(), Some("price > 3"));
    query.set_filter(" \t ").expect("blank filter");
    assert_eq!(query.get_filter(), None);

    assert_eq!(code(query.set_topk(-1)), ErrorCode::InvalidArgument);
    query.set_topk(7).expect("topk");
    assert_eq!(query.topk, 7);
    assert_eq!(code(query.set_output_fields(&["title", ""])), ErrorCode::InvalidArgument);
    assert!(query.output_fields.is_none());
    query.set_output_fields(&["title", "price"]).expect("fields");
    assert_eq!(query.output_fields, Some(vec!["title".to_string(), "price".to_string()]));
    assert_eq!(code(query.set_field_name("a\0")), ErrorCode::InvalidArgument);
    query.set_include_vector(true).expect("include vector");
    query.set_include_doc_id(true).expect("include doc id");
    assert!(query.include_vector && query.include_doc_id);
}

#[test]
fn ann_controls_replace_each_other_and_keep_radius_and_operator() {
    let mut query = SearchQuery::new("embedding", &bits(&[1.0]), 5).expect("valid query");
    query
        .set_fts_params(FtsQueryParams::new(Some("AND")).expect("operator"))
        .expect("fts params");
    query
        .set_hnsw_params(HnswQueryParams::new(64, 0.5_f32.to_bits(), true, false))
        .expect("hnsw");
    assert_eq!(query.params.index_type, Some(ControlKind::Hnsw));
    assert_eq!(query.params.ef, Some(64));
    assert_eq!(query.params.radius_bits, Some(0.5_f32.to_bits()));
    assert_eq!(query.params.default_operator, Some(FtsDefaultOperator::And));

    query
        .set_ivf_params(IvfQueryParams::new(8, true, 2.0_f32.to_bits()))
        .expect("ivf");
    assert_eq!(query.params.index_type, Some(ControlKind::Ivf));
    assert_eq!(query.params.ef, None);
    assert_eq!(query.params.is_linear, None);
    assert_eq!(query.params.nprobe, Some(8));
    // IVF controls leave an earlier radius in place.
    assert_eq!(query.params.radius_bits, Some(0.5_f32.to_bits()));

    // A zero radius (of either sign) clears the radius.
    query
        .set_hnsw_params(HnswQueryParams::new(16, (-0.0_f32).to_bits(), false, false))
        .expect("hnsw");
    assert_eq!(query.params.radius_bits, None);
    assert_eq!(query.params.nprobe, None);

    let before = query.params;
    assert_eq!(
        code(query.set_hnsw_params(HnswQueryParams::new(0, 0, false, false))),
        ErrorCode::InvalidArgument
    );
    assert_eq!(
        code(query.set_hnsw_params(HnswQueryParams::new(4, f32::NAN.to_bits(), false, false))),
        ErrorCode::InvalidArgument
    );
    assert_eq!(
        code(query.set_ivf_params(IvfQueryParams::new(4, false, 0.0_f32.to_bits()))),
        ErrorCode::InvalidArgument
    );
    assert_eq!(
        code(query.set_ivf_params(IvfQueryParams::new(4, false, (-1.0_f32).to_bits()))),
        ErrorCode::InvalidArgument
    );
    assert_eq!(query.params, before);

    query
        .set_diskann_params(DiskannQueryParams::new(40))
        .expect("diskann");
    assert_eq!(query.params.index_type, Some(ControlKind::Diskann));
    assert_eq!(query.params.list_size, Some(40));
    assert_eq!(query.params.ef, None);

    let rabitq = IvfRabitqQueryParams::new(3, 1.5_f32.to_bits(), true, true);
    assert_eq!(rabitq.scale_factor(), F32_ONE_BITS);
    query.set_ivf_rabitq_params(rabitq).expect("rabitq");
    assert_eq!(query.params.index_type, Some(ControlKind::IvfRabitq));
    assert_eq!(query.params.list_size, None);
    assert_eq!(query.params.scale_factor_bits, Some(F32_ONE_BITS));
    assert_eq!(query.params.radius_bits, Some(1.5_f32.to_bits()));

    assert_eq!(
        code(query.set_flat_params(FlatQueryParams::new(true, F32_ONE_BITS))),
        ErrorCode::NotSupported
    );
    query.set_radius(0).expect("zero radius is finite");
    assert_eq!(query.params.radius_bits, Some(0));
    assert_eq!(code(query.set_radius(f32::INFINITY.to_bits())), ErrorCode::InvalidArgument);

    query
        .set_fts_params(FtsQueryParams::new(None).expect("no operator"))
        .expect("clear operator");
    assert_eq!(query.fts_default_operator().expect("operator"), FtsDefaultOperator::Or);
}

#[test]
fn query_param_setters_validate() {
    let mut hnsw = HnswQueryParams::new(10, 0, false, false);
    assert_eq!(code(hnsw.set_ef(0)), ErrorCode::InvalidArgument);
    hnsw.set_ef(20).expect("ef");
    assert_eq!(hnsw.ef(), 20);
    let mut ivf = IvfQueryParams::new(1, false, F32_ONE_BITS);
    assert_eq!(code(ivf.set_nprobe(-3)), ErrorCode::InvalidArgument);
    assert_eq!(code(ivf.set_scale_factor(f32::NAN.to_bits())), ErrorCode::InvalidArgument);
    ivf.set_scale_factor(0.5_f32.to_bits()).expect("scale");
    assert_eq!(ivf.scale_factor(), 0.5_f32.to_bits());
    ivf.set_nprobe(9).expect("nprobe");
    assert_eq!(ivf.nprobe(), 9);
}

#[test]
fn builder_routes_to_a_vector_or_an_fts_query() {
    let query = SearchQuery::builder()
        .field_name("embedding")
        .vector(&bits(&[1.0, 2.0]))
        .filter("a = 1")
        .include_vector(true)
        .output_fields(&["title"])
        .build()
        .expect("vector query");
    assert_eq!(query.topk, 10);
    assert_eq!(query.vector, Some(bits(&[1.0, 2.0])));
    assert_eq!(query.filter.as_deref(), Some("a = 1"));
    assert!(query.include_vector);
    assert!(!query.include_doc_id);
    assert_eq!(query.output_fields, Some(vec!["title".to_string()]));

    let fts = SearchQuery::builder()
        .field_name("body")
        .fts_query_string("rust AND verus")
        .topk(3)
        .build()
        .expect("fts query");
    assert!(fts.vector.is_none());
    assert_eq!(
        fts.fts.and_then(|f| f.query_string),
        Some("rust AND verus".to_string())
    );

    assert_eq!(code(SearchQuery::builder().vector(&bits(&[1.0])).build()), ErrorCode::InvalidArgument);
    assert_eq!(
        code(
            SearchQuery::builder()
                .field_name("body")
                .vector(&bits(&[1.0]))
                .fts_match_string("x")
                .build()
        ),
        ErrorCode::InvalidArgument
    );
    assert_eq!(
        code(
            SearchQuery::builder()
                .field_name("body")
                .fts_query_string("x")
                .fts_match_string("y")
                .build()
        ),
        ErrorCode::InvalidArgument
    );
    assert_eq!(
        code(SearchQuery::builder().field_name("body").fts_query_string(" ").build()),
        ErrorCode::InvalidArgument
    );
    assert_eq!(code(SearchQuery::builder().field_name("body").build()), ErrorCode::InvalidArgument);
    assert_eq!(
        code(
            SearchQuery::builder()
                .field_name("body")
                .vector(&bits(&[1.0]))
                .output_fields(&["ok", "\0"])
                .build()
        ),
        ErrorCode::InvalidArgument
    );
}

#[test]
fn group_by_queries_validate_counts_and_names() {
    let mut query =
        GroupBySearchQuery::new("embedding", "category", &bits(&[1.0]), 3, 2).expect("group by");
    assert_eq!(query.group_count, 3);
    assert_eq!(query.group_topk, 2);
    query.set_filter("x").expect("filter");
    assert_eq!(query.filter.as_deref(), Some("x"));
    query.set_filter("").expect("blank filter");
    assert!(query.filter.is_none());
    query.set_diskann_params(DiskannQueryParams::new(8)).expect("diskann");
    assert_eq!(query.params.list_size, Some(8));
    assert_eq!(
        code(GroupBySearchQuery::new("embedding", "category", &bits(&[1.0]), 0, 2)),
        ErrorCode::InvalidArgument
    );
    assert_eq!(
        code(GroupBySearchQuery::new("embedding", " ", &bits(&[1.0]), 1, 2)),
        ErrorCode::InvalidArgument
    );
}

#[test]
fn sub_queries_keep_sparse_indices_and_values_in_step() {
    let mut sub = SubQuery::new().expect("sub query");
    assert_eq!(sub.num_candidates(), 10);
    sub.set_sparse_values(&bits(&[0.5, 1.5])).expect("values");
    assert_eq!(
        sub.sparse_vector,
        Some(vec![(0, 0.5_f32.to_bits()), (1, 1.5_f32.to_bits())])
    );
    sub.set_sparse_indices(&[7, 9]).expect("indices");
    assert_eq!(
        sub.sparse_vector,
        Some(vec![(7, 0.5_f32.to_bits()), (9, 1.5_f32.to_bits())])
    );
    assert_eq!(code(sub.set_sparse_indices(&[1])), ErrorCode::InvalidArgument);
    assert_eq!(code(sub.set_sparse_values(&bits(&[1.0]))), ErrorCode::InvalidArgument);

    let mut fresh = SubQuery::new().expect("sub query");
    fresh.set_sparse_indices(&[4, 2]).expect("indices with zero values");
    assert_eq!(fresh.sparse_vector, Some(vec![(4, 0), (2, 0)]));
    assert_eq!(code(fresh.set_num_candidates(0)), ErrorCode::InvalidArgument);
}

#[test]
fn sub_queries_become_search_queries_with_their_controls() {
    let mut sub = SubQuery::new().expect("sub query");
    assert_eq!(code(sub.to_search_query()), ErrorCode::InvalidArgument);
    sub.set_field_name("embedding").expect("field");
    assert_eq!(code(sub.to_search_query()), ErrorCode::InvalidArgument);
    sub.set_query_vector(&bits(&[1.0, 0.0])).expect("vector");
    sub.set_num_candidates(25).expect("candidates");
    sub.set_hnsw_params(HnswQueryParams::new(32, 0, false, true)).expect("hnsw");
    assert_eq!(code(sub.set_ivf_rabitq_params(IvfRabitqQueryParams::new(1, 0, false, false))), ErrorCode::NotSupported);
    let query = sub.to_search_query().expect("search query");
    assert_eq!(query.field_name, "embedding");
    assert_eq!(query.topk, 25);
    assert_eq!(query.vector, Some(bits(&[1.0, 0.0])));
    assert_eq!(query.params.ef, Some(32));
    assert_eq!(query.params.is_using_refiner, Some(true));

    let mut sparse = SubQuery::new().expect("sub query");
    sparse.set_field_name("terms").expect("field");
    sparse.set_sparse_vector(&[5], &bits(&[2.0])).expect("sparse");
    let query = sparse.to_search_query().expect("sparse query");
    assert_eq!(query.sparse_vector, Some(vec![(5, 2.0_f32.to_bits())]));

    let mut text = SubQuery::new().expect("sub query");
    text.set_field_name("body").expect("field");
    let mut fts = Fts::new().expect("fts");
    fts.set_query_string("hello").expect("query string");
    text.set_fts(&fts).expect("fts");
    let query = text.to_search_query().expect("fts query");
    assert_eq!(query.fts, Some(fts));
}

#[test]
fn multi_queries_validate_fusion_settings() {
    let mut multi = MultiQuery::new().expect("multi query");
    assert_eq!(multi.topk(), 10);
    assert!(matches!(&multi.rerank, RerankMethod::Weighted { weights } if weights.is_empty()));
    let sub = SubQuery::new().expect("sub query");
    multi.add_sub_query(&sub).expect("branch");
    assert_eq!(multi.sub_query_count(), 1);

    assert_eq!(code(multi.set_topk(0)), ErrorCode::InvalidArgument);
    multi.set_topk(4).expect("topk");
    assert_eq!(multi.topk(), 4);
    multi.set_filter("  ").expect("blank filter");
    assert_eq!(multi.effective_filter(), None);
    multi.set_filter("a > 1").expect("filter");
    assert_eq!(multi.effective_filter(), Some("a > 1"));
    multi.set_include_vector(true).expect("include");
    assert!(multi.include_vector());
    assert_eq!(code(multi.set_output_fields(&["ok", " "])), ErrorCode::InvalidArgument);
    multi.set_output_fields(&["ok"]).expect("fields");

    assert_eq!(code(multi.set_rerank_rrf(0)), ErrorCode::InvalidArgument);
    multi.set_rerank_rrf(60).expect("rrf");
    assert!(matches!(multi.rerank, RerankMethod::ReciprocalRank { rank_constant: 60 }));

    let weights: Vec<u64> = [0.5_f64, -0.0, 0.0].iter().map(|w| w.to_bits()).collect();
    multi.set_rerank_weighted(&weights).expect("weights");
    assert!(matches!(&multi.rerank, RerankMethod::Weighted { weights: w } if *w == weights));
    assert_eq!(code(multi.set_rerank_weighted(&[])), ErrorCode::InvalidArgument);
    assert_eq!(
        code(multi.set_rerank_weighted(&[(-1.0_f64).to_bits()])),
        ErrorCode::InvalidArgument
    );
    assert_eq!(
        code(multi.set_rerank_weighted(&[f64::INFINITY.to_bits()])),
        ErrorCode::InvalidArgument
    );

    multi.set_normalization("MinMax").expect("normalization");
    assert_eq!(multi.normalization.as_deref(), Some("minmax"));
    assert_eq!(code(multi.set_normalization("l2")), ErrorCode::InvalidArgument);
    assert_eq!(multi.normalization.as_deref(), Some("minmax"));
}

#[test]
fn multi_queries_hold_at_most_the_branch_limit() {
    let mut multi = MultiQuery::new().expect("multi query");
    let sub = SubQuery::new().expect("sub query");
    for _ in 0..MAX_SUB_QUERIES {
        multi.add_sub_query(&sub).expect("branch");
    }
    assert_eq!(code(multi.add_sub_query(&sub)), ErrorCode::ResourceExhausted);
    assert_eq!(multi.sub_query_count(), MAX_SUB_QUERIES);
}
