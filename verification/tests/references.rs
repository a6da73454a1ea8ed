use arnab::sqlrefs::get_sql_references;

fn sorted_refs(sql: &str) -> Vec<String> {
    let mut refs = get_sql_references(sql).expect("statement should parse");
    refs.sort();
    refs
}

#[test]
fn get_ref() {
    let refs = get_sql_references("SELECT * FROM abc").unwrap();
    assert_eq!(refs, vec!["abc".to_string()]);
}

#[test]
fn get_ref_subtable() {
    let sql = "SELECT * FROM (SELECT * FROM my_sub_table) AS sub_query, my_table WHERE id = 1";
    let refs = sorted_refs(sql);
    assert_eq!(refs, vec!["my_sub_table".to_string(), "my_table".to_string()]);
}

#[test]
fn get_ref_join() {
    let refs = sorted_refs("SELECT * FROM a JOIN b USING(id) LEFT JOIN c ON a.id = c.id");
    assert_eq!(refs, vec!["a".to_string(), "b".to_string(), "c".to_string()]);
}

#[test]
fn get_ref_cte_bodies() {
    let sql = "WITH tmp AS (SELECT * FROM base) SELECT * FROM tmp JOIN other USING(id)";
    let refs = sorted_refs(sql);
    // the CTE body's target and the outer targets are collected, and the
    // statement's own alias is excluded: within the statement, tmp names
    // the common table expression, whatever else carries that name
    assert_eq!(refs, vec!["base".to_string(), "other".to_string()]);
}

#[test]
fn get_ref_deduplicates() {
    let refs = sorted_refs("SELECT * FROM a JOIN a USING(id)");
    assert_eq!(refs, vec!["a".to_string()]);
}

#[test]
fn unparsable_sql_is_an_error() {
    assert!(get_sql_references("SELEKT GRUMBLE FROM FROM").is_err());
}
