use crates_dependency_network::dump::{accept_dump, CrateDump, DumpScan};
use crates_dependency_network::index::{DumpFilters, ErrorCounts, IndexRecord};
use crates_dependency_network::labels::{
    build_labels, header_index, join_labels, labels_csv, parse_i64, read_id_name, read_id_name_table, read_relation,
    read_relation_table, LabelError, LabelRow, LabelTable,
};
use crates_dependency_network::release::IndexLine;

fn filters() -> DumpFilters {
    DumpFilters { include_optional: false, include_dev: false, include_build: false }
}

fn strings(items: &[&str]) -> Vec<String> {
    items.iter().map(|s| s.to_string()).collect()
}

fn dump(path: &str, f: DumpFilters) -> CrateDump {
    CrateDump {
        index_path: path.to_string(),
        filters: f,
        files_scanned: 3,
        skipped_yanked_only: 1,
        errors: ErrorCounts::default(),
        crates: Vec::new(),
    }
}

#[test]
fn dump_reused_only_for_same_index_and_filters() {
    let kept = accept_dump(dump("/idx", filters()), "/idx", &filters()).unwrap();
    assert_eq!(kept.files_scanned, 3);
    assert!(accept_dump(dump("/idx", filters()), "/other", &filters()).is_none());
    let dev = DumpFilters { include_dev: true, ..filters() };
    assert!(accept_dump(dump("/idx", filters()), "/idx", &dev).is_none());
}

#[test]
fn scan_tallies_files() {
    let mut scan = DumpScan::new();
    scan.record_walk_error();
    let good = vec![IndexLine::Record(IndexRecord {
        name: "demo".to_string(),
        vers: "0.1.0".to_string(),
        yanked: false,
        deps: Vec::new(),
    })];
    scan.scan_index_file(&good, false, &filters());
    let yanked = vec![IndexLine::Record(IndexRecord {
        name: "gone".to_string(),
        vers: "0.1.0".to_string(),
        yanked: true,
        deps: Vec::new(),
    })];
    scan.scan_index_file(&yanked, false, &filters());
    scan.scan_index_file(&vec![IndexLine::Blank, IndexLine::Malformed], false, &filters());
    scan.scan_index_file(&vec![IndexLine::Malformed], true, &filters());
    assert_eq!(scan.files_scanned, 4);
    assert_eq!(scan.skipped_yanked_only, 1);
    assert_eq!(scan.errors, ErrorCounts { io_errors: 2, json_errors: 2, version_errors: 0 });
    let d = scan.into_dump("/idx".to_string(), filters());
    assert_eq!(d.crates.len(), 2);
    assert_eq!(d.crates[0].name, "demo");
    assert_eq!(d.crates[1].name, "gone");
    assert_eq!(d.index_path, "/idx");
}

#[test]
fn parse_i64_follows_from_str() {
    for text in ["0", "42", "-42", "+7", "-0", "007", "9223372036854775807", "-9223372036854775808",
                 "9223372036854775808", "-9223372036854775809", "", "-", "+", " 1", "1 ", "1_0", "x",
                 "99999999999999999999999999999", "--1", "+-1"] {
        assert_eq!(parse_i64(text), text.parse::<i64>().ok(), "text {:?}", text);
    }
}

#[test]
fn header_index_finds_first_match() {
    let headers = strings(&["id", "name", "id"]);
    assert_eq!(header_index(&headers, "id"), Some(0));
    assert_eq!(header_index(&headers, "name"), Some(1));
    assert_eq!(header_index(&headers, "category"), None);
}

#[test]
fn read_id_name_keeps_parsable_rows() {
    let headers = strings(&["name", "id"]);
    let records = vec![strings(&["serde", "1"]), strings(&["bad", "x"]), strings(&["tokio", "2"]), strings(&["short"])];
    let rows = read_id_name(&headers, &records, "id", "name").unwrap();
    assert_eq!(rows, vec![(1, "serde".to_string()), (2, "tokio".to_string())]);
}

#[test]
fn read_id_name_reports_missing_columns() {
    let headers = strings(&["id"]);
    match read_id_name(&headers, &Vec::new(), "id", "name") {
        Err(LabelError::MissingColumn(c)) => assert_eq!(c, "name"),
        other => panic!("expected a missing column, got {:?}", other),
    }
    match read_id_name(&headers, &Vec::new(), "crate_id", "name") {
        Err(LabelError::MissingColumn(c)) => assert_eq!(c, "crate_id"),
        other => panic!("expected a missing column, got {:?}", other),
    }
}

#[test]
fn read_relation_keeps_rows_with_two_ids() {
    let headers = strings(&["crate_id", "category_id"]);
    let records = vec![strings(&["1", "10"]), strings(&["2", ""]), strings(&["3", "30"])];
    assert_eq!(read_relation(&headers, &records, "crate_id", "category_id").unwrap(), vec![(1, 10), (3, 30)]);
}

#[test]
fn labels_are_grouped_by_crate() {
    let crate_rows = vec![(2, "tokio".to_string()), (1, "serde".to_string()), (2, "tokio2".to_string())];
    let category_rows = vec![(10, "encoding".to_string()), (11, "async".to_string()), (12, "network".to_string())];
    let crate_categories = vec![(1, 10), (2, 12), (2, 11), (2, 11), (9, 10), (1, 99)];
    let keyword_rows = vec![(5, "json".to_string())];
    let crate_keywords = vec![(1, 5)];
    let t = build_labels(&crate_rows, &category_rows, &crate_categories, &keyword_rows, &crate_keywords);
    assert_eq!(t.crates, 2);
    assert_eq!(t.with_categories, 3);
    assert_eq!(t.with_keywords, 1);
    assert_eq!(t.rows.len(), 2);
    assert_eq!(t.rows[0].id, 1);
    assert_eq!(t.rows[0].name, "serde");
    assert_eq!(t.rows[0].categories, strings(&["encoding"]));
    assert_eq!(t.rows[0].keywords, strings(&["json"]));
    assert_eq!(t.rows[1].name, "tokio2");
    assert_eq!(t.rows[1].categories, strings(&["async", "network"]));
    assert!(t.rows[1].keywords.is_empty());
}

#[test]
fn join_labels_uses_semicolons() {
    assert_eq!(join_labels(&Vec::new()), "");
    assert_eq!(join_labels(&strings(&["a"])), "a");
    assert_eq!(join_labels(&strings(&["a", "b", "c"])), "a;b;c");
}

#[test]
fn id_name_table_is_read_from_csv_bytes() {
    let text = b"id,name,extra\n1,serde,x\nnot-a-number,bad,y\n2,\"tokio, the runtime\",z\n";
    let rows = read_id_name_table(text, "id", "name").unwrap();
    assert_eq!(rows, vec![(1, "serde".to_string()), (2, "tokio, the runtime".to_string())]);
}

#[test]
fn relation_table_is_read_from_csv_bytes() {
    let text = b"crate_id,category_id\n1,10\n2,\n3,30\n";
    assert_eq!(read_relation_table(text, "crate_id", "category_id").unwrap(), vec![(1, 10), (3, 30)]);
}

#[test]
fn record_with_other_field_count_fails_the_table() {
    let text = b"crate_id,category_id\n1,10\n2,20,99\n3,30\n";
    assert!(matches!(read_relation_table(text, "crate_id", "category_id"), Err(LabelError::BadRecord)));
    let text = b"id,name\n1,serde\n2\n";
    assert!(matches!(read_id_name_table(text, "id", "name"), Err(LabelError::BadRecord)));
}

#[test]
fn missing_column_is_reported_before_a_bad_record() {
    let text = b"id,name\n1,serde\n2\n";
    match read_id_name_table(text, "id", "keyword") {
        Err(LabelError::MissingColumn(c)) => assert_eq!(c, "keyword"),
        other => panic!("expected a missing column, got {:?}", other),
    }
}

#[test]
fn unreadable_header_fails_the_table() {
    let text: &[u8] = &[0xff, 0xfe, b',', b'a', b'\n', b'1', b',', b'2', b'\n'];
    assert!(matches!(read_relation_table(text, "crate_id", "category_id"), Err(LabelError::UnreadableHeader)));
}

#[test]
fn empty_table_has_no_columns() {
    match read_relation_table(b"", "crate_id", "category_id") {
        Err(LabelError::MissingColumn(c)) => assert_eq!(c, "crate_id"),
        other => panic!("expected a missing column, got {:?}", other),
    }
}

#[test]
fn label_file_is_written_as_csv() {
    let table = LabelTable {
        rows: vec![
            LabelRow { id: 1, name: "serde".to_string(), categories: strings(&["encoding"]), keywords: strings(&["json", "serde"]) },
            LabelRow { id: 2, name: "odd,name".to_string(), categories: Vec::new(), keywords: strings(&["say \"hi\""]) },
        ],
        crates: 2,
        with_categories: 1,
        with_keywords: 2,
    };
    let bytes = labels_csv(&table);
    assert_eq!(
        String::from_utf8(bytes).unwrap(),
        "crate,categories,keywords\nserde,encoding,json;serde\n\"odd,name\",,\"say \"\"hi\"\"\"\n"
    );
}

#[test]
fn empty_label_table_gives_the_header_only() {
    let table = LabelTable { rows: Vec::new(), crates: 0, with_categories: 0, with_keywords: 0 };
    assert_eq!(labels_csv(&table), b"crate,categories,keywords\n".to_vec());
}
