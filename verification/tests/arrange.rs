use codimate::arrange::{check_arrangement, ArrangeError, ColumnNames, EdgeEnds, EdgeNames};

fn column(id: &str, layers: &[&str]) -> ColumnNames {
    ColumnNames { id: id.to_string(), layers: layers.iter().map(|s| s.to_string()).collect() }
}

fn edge(from_col: &str, from_layer: &str, to_col: &str, to_layer: &str) -> EdgeNames {
    EdgeNames {
        from_col: from_col.to_string(),
        from_layer: from_layer.to_string(),
        to_col: to_col.to_string(),
        to_layer: to_layer.to_string(),
    }
}

fn transformer() -> Vec<ColumnNames> {
    vec![
        column("encoder", &["input_embedding", "mha", "add_norm_1"]),
        column("decoder", &["mha_dec", "add_norm_2"]),
    ]
}

#[test]
fn edges_between_existing_layers_are_accepted() {
    let edges = vec![edge("encoder", "input_embedding", "encoder", "mha"), edge("encoder", "add_norm_1", "decoder", "mha_dec")];
    assert_eq!(
        check_arrangement(&transformer(), &edges),
        Ok(vec![
            EdgeEnds { from_col: 0, from_layer: 0, to_col: 0, to_layer: 1 },
            EdgeEnds { from_col: 0, from_layer: 2, to_col: 1, to_layer: 0 },
        ])
    );
}

#[test]
fn an_empty_column_is_refused_first() {
    let cols = vec![column("a", &["x"]), column("b", &[]), column("c", &[])];
    let edges = vec![edge("nowhere", "x", "a", "x")];
    let e = check_arrangement(&cols, &edges).unwrap_err();
    assert_eq!(e, ArrangeError::EmptyColumn { column: "b".to_string() });
    assert_eq!(e.message(), "column 'b' has no layers");
}

#[test]
fn an_unknown_column_is_named() {
    let e = check_arrangement(&transformer(), &vec![edge("encoder", "mha", "middle", "mha")]).unwrap_err();
    assert_eq!(e, ArrangeError::UnknownColumn { column: "middle".to_string() });
    assert_eq!(e.message(), "unknown column 'middle'");
}

#[test]
fn the_source_column_is_checked_before_the_target() {
    let e = check_arrangement(&transformer(), &vec![edge("left", "mha", "right", "mha")]).unwrap_err();
    assert_eq!(e, ArrangeError::UnknownColumn { column: "left".to_string() });
}

#[test]
fn an_unknown_layer_is_named_with_its_column() {
    let e = check_arrangement(&transformer(), &vec![edge("encoder", "mha", "decoder", "ffn")]).unwrap_err();
    assert_eq!(e, ArrangeError::UnknownLayer { column: "decoder".to_string(), layer: "ffn".to_string() });
    assert_eq!(e.message(), "unknown layer 'ffn' in column 'decoder'");
}

#[test]
fn edges_are_checked_in_order() {
    let edges = vec![
        edge("encoder", "mha", "encoder", "add_norm_1"),
        edge("encoder", "nope", "decoder", "nothing"),
        edge("ghost", "x", "decoder", "mha_dec"),
    ];
    let e = check_arrangement(&transformer(), &edges).unwrap_err();
    assert_eq!(e, ArrangeError::UnknownLayer { column: "encoder".to_string(), layer: "nope".to_string() });
}

#[test]
fn an_edge_runs_from_the_first_column_and_layer_of_each_name() {
    let cols = vec![column("a", &["x", "y", "x"]), column("a", &["z"]), column("b", &["y"])];
    let ends = check_arrangement(&cols, &vec![edge("a", "x", "b", "y")]).unwrap();
    assert_eq!(ends, vec![EdgeEnds { from_col: 0, from_layer: 0, to_col: 2, to_layer: 0 }]);
}
