use darkreach::dashboard::export::{
    export_content_type, export_csv, export_disposition, export_wants_json, tag_filter, ExportRow,
};

fn row(id: i64, form: &str, expression: &str, digits: i64, tags: &[&str]) -> ExportRow {
    ExportRow {
        id,
        form: form.to_string(),
        expression: expression.to_string(),
        digits,
        found_at: "2024-05-01T12:00:00+00:00".to_string(),
        proof_method: "pfgw".to_string(),
        tags: tags.iter().map(|t| t.to_string()).collect(),
    }
}

#[test]
fn tag_filter_splits_and_trims() {
    assert_eq!(tag_filter("kbn, verified ,\tbrowser"), vec!["kbn", "verified", "browser"]);
    assert_eq!(tag_filter("single"), vec!["single"]);
    assert_eq!(tag_filter(""), vec![""]);
    assert_eq!(tag_filter(",x,"), vec!["", "x", ""]);
}

#[test]
fn csv_header_only_without_rows() {
    assert_eq!(export_csv(&[]), "id,form,expression,digits,found_at,proof_method,tags\n");
}

#[test]
fn csv_rows_quote_and_join() {
    let rows = vec![
        row(7, "kbn", "3*2^5-1", 2, &["kbn", "verified"]),
        row(-1, "we\"ird", "a\"b", 10, &[]),
    ];
    assert_eq!(
        export_csv(&rows),
        "id,form,expression,digits,found_at,proof_method,tags\n\
         7,\"kbn\",\"3*2^5-1\",2,2024-05-01T12:00:00+00:00,\"pfgw\",\"kbn;verified\"\n\
         -1,\"we\"\"ird\",\"a\"\"b\",10,2024-05-01T12:00:00+00:00,\"pfgw\",\"\"\n"
    );
}

#[test]
fn export_headers() {
    assert!(export_wants_json(Some("json")));
    assert!(!export_wants_json(Some("csv")));
    assert!(!export_wants_json(Some("JSON")));
    assert!(!export_wants_json(None));
    assert_eq!(export_content_type(true), "application/json");
    assert_eq!(export_content_type(false), "text/csv");
    assert_eq!(
        export_disposition(Some("kbn"), "20240501", false),
        "attachment; filename=\"darkreach-primes-kbn-20240501.csv\""
    );
    assert_eq!(
        export_disposition(None, "20240501", true),
        "attachment; filename=\"darkreach-primes-20240501.json\""
    );
}
