use kiss_conformance::dispatch::{
    is_thread_index_free, parse_dispatch_block, parse_dispatch_from_document, DispatchDecline,
    DispatchFields, DispatchModel,
};

fn declared() -> DispatchModel {
    DispatchModel::Declared(DispatchFields {
        invocation_domain: "n".to_string(),
        workgroup_sizing: "256".to_string(),
        count_to_grid: "ceil_div(n, 256)".to_string(),
        thread_mapping: "grid_stride".to_string(),
        addressing_rule: "linear".to_string(),
    })
}

#[test]
fn render_then_parse_round_trips() {
    for m in [DispatchModel::GeometryAgnostic, declared()] {
        let b = m.render_block();
        assert_eq!(parse_dispatch_block(&b), Ok(m));
    }
    assert_eq!(
        DispatchModel::GeometryAgnostic.render_block(),
        b"[section:4:dispatch]\ndispatch_model = geometry-agnostic\n".to_vec()
    );
}

#[test]
fn parse_declines_are_typed() {
    assert_eq!(parse_dispatch_block(b"[section:3:x]\n"), Err(DispatchDecline::BadHeading));
    assert_eq!(parse_dispatch_block(b"[section:4:dispatch]\n\n"), Err(DispatchDecline::Empty));
    assert_eq!(
        parse_dispatch_block(b"[section:4:dispatch]\nnot a field\n"),
        Err(DispatchDecline::MalformedLine("not a field".to_string()))
    );
    assert_eq!(
        parse_dispatch_block(b"[section:4:dispatch]\ndispatch_model = geometry-agnostic\nthread_mapping = x\n"),
        Err(DispatchDecline::SentinelWithGeometry)
    );
    assert_eq!(
        parse_dispatch_block(b"[section:4:dispatch]\ndispatch_model = fixed\n"),
        Err(DispatchDecline::BadSentinelValue("fixed".to_string()))
    );
    assert_eq!(
        parse_dispatch_block(b"[section:4:dispatch]\ndispatch_model = geometry-agnostic\nextra = 1\n"),
        Err(DispatchDecline::UnknownField("extra".to_string()))
    );
    assert_eq!(
        parse_dispatch_block(b"[section:4:dispatch]\ninvocation_domain = n\nbogus = 1\n"),
        Err(DispatchDecline::UnknownField("bogus".to_string()))
    );
    assert_eq!(
        parse_dispatch_block(b"[section:4:dispatch]\ninvocation_domain = n\n"),
        Err(DispatchDecline::PartialGeometry)
    );
    assert_eq!(parse_dispatch_block(&[0xFF]), Err(DispatchDecline::BadHeading));
}

#[test]
fn document_extraction_is_line_anchored() {
    let mut body = b"[section:3:interface]\nnote = [section:4:dispatch]\n".to_vec();
    assert_eq!(parse_dispatch_from_document(&body), Err(DispatchDecline::MissingSection));
    body.extend_from_slice(&DispatchModel::GeometryAgnostic.render_block());
    body.extend_from_slice(b"[section:5:capabilities]\nx = 1\n");
    assert_eq!(parse_dispatch_from_document(&body), Ok(DispatchModel::GeometryAgnostic));
    assert_eq!(
        parse_dispatch_from_document(&declared().render_block()),
        Ok(declared())
    );
}

#[test]
fn thread_index_freedom_is_word_boundaried() {
    assert!(is_thread_index_free("idx_extents * 4"));
    assert!(!is_thread_index_free("GID + 1"));
    assert!(!is_thread_index_free("base+tile_mapping"));
    assert!(is_thread_index_free("123 + n"));
    assert!(is_thread_index_free(""));
}

#[test]
fn validate_requires_all_fields_and_index_freedom() {
    assert_eq!(DispatchModel::GeometryAgnostic.validate(), Ok(()));
    assert_eq!(declared().validate(), Ok(()));
    let mut f = match declared() { DispatchModel::Declared(f) => f, _ => unreachable!() };
    f.count_to_grid = "  ".to_string();
    assert_eq!(
        DispatchModel::Declared(f.clone()).validate(),
        Err("§6.6-0007: partial Dispatch section — `count_to_grid` is empty; declare all five fields or carry the `dispatch_model = geometry-agnostic` sentinel line".to_string())
    );
    f.count_to_grid = "n".to_string();
    f.addressing_rule = "base + tid".to_string();
    assert_eq!(
        DispatchModel::Declared(f).validate(),
        Err("§6.6-0004/-0008: `addressing_rule` references a per-thread index / reserved mapping symbol — the v1 grammar is thread-index-free; the per-thread index is the grid-stride semantic, and the richer form is reserved post-v1".to_string())
    );
}
