use tably::column::Column;
use tably::table::JoinCells;
use tably::table::Op;
use tably::table::MiOp;
use tably::table::Table;
use tably::table::TableBuilder;
use tably::table::TableError;
use tably::value::Value;

fn small_table() -> Table {
    Table::parse_tsv("id\tname\n1\tAlice\n2\tBob", 0).unwrap()
}

fn col_texts(t: &Table, name: &str) -> Vec<String> {
    let c = t.column(name).unwrap();
    c.cells().iter().map(|v| v.as_str().to_string()).collect()
}

#[test]
fn parse_and_counts() {
    let t = small_table();
    assert_eq!(t.columns_count(), 2);
    assert_eq!(t.rows_count(), 2);
    assert_eq!(col_texts(&t, "id"), vec!["1", "2"]);
    assert_eq!(col_texts(&t, "name"), vec!["Alice", "Bob"]);
}

#[test]
fn parse_skips_and_trims() {
    let t = Table::parse_tsv("junk\n\n a \t b \n x\ty\n\n", 1).unwrap();
    assert_eq!(t.rows_count(), 1);
    assert_eq!(col_texts(&t, "a"), vec!["x"]);
    assert_eq!(col_texts(&t, "b"), vec!["y"]);
}

#[test]
fn parse_missing_header() {
    let r = Table::parse_tsv("", 0);
    assert!(matches!(r, Err(TableError::MissingHeader)));
    let r2 = Table::parse_tsv("a\tb\nx\ty", 5);
    assert!(matches!(r2, Err(TableError::MissingHeader)));
}

#[test]
fn parse_column_count_mismatch() {
    let r = Table::parse_tsv("a\tb\n1\t2\t3", 0);
    match r {
        Err(TableError::ColumnCountMismatch(expected, actual)) => {
            assert_eq!(expected, 2);
            assert_eq!(actual, 3);
        }
        _ => panic!("expected a column count mismatch"),
    }
}

#[test]
fn select_columns_scenario() {
    let t = small_table();
    let s = t.select_columns(&["name"]).unwrap();
    assert_eq!(s.columns_count(), 1);
    assert_eq!(col_texts(&s, "name"), vec!["Alice", "Bob"]);
    assert!(matches!(
        t.select_columns(&["nope"]),
        Err(TableError::MissingColumn(_))
    ));
}

#[test]
fn filter_column_scenario() {
    let t = small_table();
    let f = t.filter_column("id", |v: &str| v == "1").unwrap();
    assert_eq!(f.rows_count(), 1);
    assert_eq!(col_texts(&f, "id"), vec!["1"]);
    assert_eq!(col_texts(&f, "name"), vec!["Alice"]);
}

#[test]
fn join_with_itself_keeps_rows() {
    let t = small_table();
    let u = small_table();
    let j = t.join_on_columns("id", &u, "id").unwrap();
    assert_eq!(j.rows_count(), 2);
    let mut ids = col_texts(&j, "id");
    ids.sort();
    assert_eq!(ids, vec!["1", "2"]);
}

#[test]
fn join_cross_product_counts() {
    let a = Table::parse_tsv("k\tx\n1\tp\n1\tq\n2\tr", 0).unwrap();
    let b = Table::parse_tsv("k\ty\n1\ts\n3\tt", 0).unwrap();
    let j = a.join_on_columns("k", &b, "k").unwrap();
    assert_eq!(j.rows_count(), 2);
    assert_eq!(col_texts(&j, "k"), vec!["1", "1"]);
}

#[test]
fn group_by_concatenates() {
    let t = Table::parse_tsv("k\tv\na\t1\na\t2\nb\t3", 0).unwrap();
    let ops = vec![Op::new("v", JoinCells { sep: ',' })];
    let g = t.group_by_column("k", &ops).unwrap();
    assert_eq!(g.rows_count(), 2);
    assert_eq!(col_texts(&g, "k"), vec!["a", "b"]);
    assert_eq!(col_texts(&g, "v"), vec!["1,2", "3"]);
}

#[test]
fn dinstinct_keeps_first() {
    let t = Table::parse_tsv("k\tv\na\t1\nb\t2\na\t3", 0).unwrap();
    let d = t.dinstinct_column("k").unwrap();
    assert_eq!(d.rows_count(), 2);
    assert_eq!(col_texts(&d, "k"), vec!["a", "b"]);
    assert_eq!(col_texts(&d, "v"), vec!["1", "2"]);
}

#[test]
fn sort_is_stable() {
    let t = Table::parse_tsv("k\tv\nb\t1\na\t2\nb\t3\na\t4", 0).unwrap();
    let s = t.sort_column("k").unwrap();
    assert_eq!(col_texts(&s, "k"), vec!["a", "a", "b", "b"]);
    assert_eq!(col_texts(&s, "v"), vec!["2", "4", "1", "3"]);
}

#[test]
fn sort_by_comparator() {
    let t = Table::parse_tsv("k\nb\nc\na", 0).unwrap();
    let s = t
        .sort_column_by("k", |x: &str, y: &str| y.cmp(x))
        .unwrap();
    assert_eq!(col_texts(&s, "k"), vec!["c", "b", "a"]);
}

#[test]
fn diff_with_itself_is_empty() {
    let t = small_table();
    let u = small_table();
    let d = t.diff_on_columns("id", &u, "id").unwrap();
    assert_eq!(d.rows_count(), 0);
}

#[test]
fn diff_keeps_unmatched() {
    let a = Table::parse_tsv("k\n1\n2\n3", 0).unwrap();
    let b = Table::parse_tsv("k\n2", 0).unwrap();
    let d = a.diff_on_columns("k", &b, "k").unwrap();
    assert_eq!(col_texts(&d, "k"), vec!["1", "3"]);
}

#[test]
fn rename_and_deselect() {
    let t = small_table();
    let r = t.rename_column("id", "key").unwrap();
    assert_eq!(col_texts(&r, "key"), vec!["1", "2"]);
    assert!(matches!(
        r.column("id"),
        Err(TableError::MissingColumn(_))
    ));
    let d = t.deselect_column("id").unwrap();
    assert_eq!(d.columns_count(), 1);
    assert_eq!(col_texts(&d, "name"), vec!["Alice", "Bob"]);
}

#[test]
fn rename_overwrites_collision() {
    let t = small_table();
    let r = t.rename_column("id", "name").unwrap();
    assert_eq!(r.columns_count(), 1);
    assert_eq!(col_texts(&r, "name"), vec!["1", "2"]);
}

#[test]
fn map_column_applies() {
    let t = small_table();
    let m = t
        .map_column("name", |v: &str| format!("{}!", v))
        .unwrap();
    assert_eq!(col_texts(&m, "name"), vec!["Alice!", "Bob!"]);
    assert_eq!(col_texts(&m, "id"), vec!["1", "2"]);
}

#[test]
fn concatenate_tables() {
    let a = small_table();
    let b = Table::parse_tsv("id\tname\n3\tCarol", 0).unwrap();
    let c = a.concatenate(&b).unwrap();
    assert_eq!(c.rows_count(), 3);
    assert_eq!(col_texts(&c, "name"), vec!["Alice", "Bob", "Carol"]);
    let lacking = Table::parse_tsv("id\n9", 0).unwrap();
    assert!(matches!(
        a.concatenate(&lacking),
        Err(TableError::ConcatenateColumnMismatch(_))
    ));
}

#[test]
fn create_fixed_and_concatenate_columns() {
    let t = small_table();
    let f = t.create_fixed_column("tag", "x");
    assert_eq!(col_texts(&f, "tag"), vec!["x", "x"]);
    let c = t.concatenate_columns("id", '-', "name", "both").unwrap();
    assert_eq!(col_texts(&c, "both"), vec!["1-Alice", "2-Bob"]);
}

#[test]
fn create_column_from_inputs() {
    let t = small_table();
    let expr = MiOp::new(&["id", "name"], "pair", JoinCells { sep: ':' });
    let c = t.create_column(expr).unwrap();
    assert_eq!(col_texts(&c, "pair"), vec!["1:Alice", "2:Bob"]);
}

#[test]
fn tsv_round_trip() {
    let t = small_table();
    let text = t.to_tsv(vec!["id".to_string(), "name".to_string()]).unwrap();
    assert_eq!(text, "id\tname\n1\tAlice\n2\tBob");
    let back = Table::parse_tsv(&text, 0).unwrap();
    assert_eq!(col_texts(&back, "id"), col_texts(&t, "id"));
    assert_eq!(col_texts(&back, "name"), col_texts(&t, "name"));
}

#[test]
fn to_tsv_missing_column() {
    let t = small_table();
    assert!(matches!(
        t.to_tsv(vec!["zap".to_string()]),
        Err(TableError::MissingColumn(_))
    ));
}

#[test]
fn to_repr_renders() {
    let t = small_table();
    let r = t.to_repr();
    assert!(r.len() > 0);
    assert!(r.contains("Alice"));
}

#[test]
fn column_index_and_remap() {
    let c = Column::new(vec![
        Value::new("a".to_string()),
        Value::new("b".to_string()),
        Value::new("a".to_string()),
    ]);
    assert!(c.has_index());
    let ix = c.get_index();
    let ps = ix.lookup(&Value::new("a".to_string())).unwrap();
    assert_eq!(ps.as_slice(), &[0, 2]);
    assert!(ix.contains_key(&Value::new("b".to_string())));
    assert!(!ix.contains_key(&Value::new("z".to_string())));
    let r = c.remap(&vec![2, 0, 0]);
    assert!(r.has_index());
    let rix = r.get_index();
    let rps = rix.lookup(&Value::new("a".to_string())).unwrap();
    assert_eq!(rps.as_slice(), &[0, 1, 2]);
    let texts: Vec<&str> = r.cells().iter().map(|v| v.as_str()).collect();
    assert_eq!(texts, vec!["a", "a", "a"]);
    let r2 = c.remap(&vec![1, 0]);
    let texts2: Vec<&str> = r2.cells().iter().map(|v| v.as_str()).collect();
    assert_eq!(texts2, vec!["b", "a"]);
}

#[test]
fn index_shared_across_clones() {
    let c = Column::new(vec![
        Value::new("x".to_string()),
        Value::new("y".to_string()),
    ]);
    let d = c.duplicate();
    assert!(c.has_index());
    assert!(d.has_index());
    let ps = d.get_index().lookup(&Value::new("y".to_string())).unwrap().clone();
    assert_eq!(ps.as_slice(), &[1]);
    let t = Table::parse_tsv("id\n7", 0).unwrap();
    assert!(t.column("id").unwrap().has_index());
}

#[test]
fn parse_crlf_and_blank_lines() {
    let t = Table::parse_tsv("a\tb\r\n1\t2\r\n\r\n   \n3\t4\r\n", 0).unwrap();
    assert_eq!(t.rows_count(), 2);
    assert_eq!(col_texts(&t, "a"), vec!["1", "3"]);
    assert_eq!(col_texts(&t, "b"), vec!["2", "4"]);
}

#[test]
fn sort_by_is_stable_on_ties() {
    let t = Table::parse_tsv("k\tv\nbb\t1\na\t2\ncc\t3\na\t4\nbb\t5", 0).unwrap();
    let s = t
        .sort_column_by("k", |x: &str, y: &str| x.len().cmp(&y.len()))
        .unwrap();
    assert_eq!(col_texts(&s, "k"), vec!["a", "a", "bb", "cc", "bb"]);
    assert_eq!(col_texts(&s, "v"), vec!["2", "4", "1", "3", "5"]);
}

#[test]
fn builder_counts_rows() {
    let b = TableBuilder::new(vec!["x".to_string(), "y".to_string()]);
    let b = b.add_row(vec!["1".to_string(), "2".to_string()]).unwrap();
    let bad = TableBuilder::new(vec!["x".to_string()])
        .add_row(vec!["1".to_string(), "2".to_string()]);
    assert!(matches!(bad, Err(TableError::ColumnCountMismatch(1, 2))));
    let t = b.build();
    assert_eq!(t.rows_count(), 1);
    assert_eq!(col_texts(&t, "x"), vec!["1"]);
    assert_eq!(col_texts(&t, "y"), vec!["2"]);
}

#[test]
fn values_compare_by_content() {
    let a = Value::new("abc".to_string());
    let b = Value::new("abc".to_string());
    let c = Value::new("abd".to_string());
    assert!(a.eq_value(&b));
    assert!(!a.eq_value(&c));
    assert!(a.lt_value(&c));
    assert!(!c.lt_value(&a));
    assert_eq!(a.as_str(), "abc");
    assert!(a.duplicate().eq_value(&a));
}
