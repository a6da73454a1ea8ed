//! A structural model of the parts of a parsed SQL statement that reference
//! extraction walks: the `FROM` and `JOIN` targets of a top-level query, of
//! its common-table-expression bodies, and of derived (subquery) tables.
use vstd::prelude::*;

use crate::errors::ArnabError;
use crate::text::str_eq;

verus! {

/// One `FROM` or `JOIN` target: a named table, a derived table (a
/// parenthesized subquery whose body is a plain select), or anything else,
/// which contributes no table references.
pub enum TableFactorSyntax {
    Table { name: String },
    Derived { body: Option<SelectSyntax> },
    Other,
}

/// One entry of a select's `FROM` list: a starting relation and the
/// relations joined onto it.
pub struct TableWithJoinsSyntax {
    pub relation: TableFactorSyntax,
    pub joins: Vec<TableFactorSyntax>,
}

/// The `FROM` list of a plain select body.
pub struct SelectSyntax {
    pub from: Vec<TableWithJoinsSyntax>,
}

/// One common table expression: the alias it introduces, visible to the
/// rest of its statement, and its select body where it is a plain select.
pub struct CteSyntax {
    pub alias: String,
    pub body: Option<SelectSyntax>,
}

/// One parsed top-level statement. A query statement carries its common
/// table expressions and its own select body; any other statement carries
/// nothing that reference extraction reads.
pub enum StatementSyntax {
    Query { ctes: Vec<CteSyntax>, body: Option<SelectSyntax> },
    Other,
}

/// The table names referenced by one `FROM`/`JOIN` target.
pub open spec fn factor_refs(tf: TableFactorSyntax) -> Set<Seq<char>>
    decreases tf,
{
    match tf {
        TableFactorSyntax::Table { name } => set![name@],
        TableFactorSyntax::Derived { body } => match body {
            Some(sel) => select_refs(sel),
            None => Set::empty(),
        },
        TableFactorSyntax::Other => Set::empty(),
    }
}

/// The table names referenced by a prefix of a sequence of factors.
pub open spec fn factors_refs(fs: Seq<TableFactorSyntax>) -> Set<Seq<char>>
    decreases fs,
{
    if fs.len() == 0 {
        Set::empty()
    } else {
        factors_refs(fs.drop_last()).union(factor_refs(fs.last()))
    }
}

/// The table names referenced by one `FROM` entry: its relation and all of
/// its join targets.
pub open spec fn twj_refs(twj: TableWithJoinsSyntax) -> Set<Seq<char>>
    decreases twj,
{
    factor_refs(twj.relation).union(factors_refs(twj.joins@))
}

/// The table names referenced by a sequence of `FROM` entries.
pub open spec fn twjs_refs(twjs: Seq<TableWithJoinsSyntax>) -> Set<Seq<char>>
    decreases twjs,
{
    if twjs.len() == 0 {
        Set::empty()
    } else {
        twjs_refs(twjs.drop_last()).union(twj_refs(twjs.last()))
    }
}

/// The table names referenced by a select body's `FROM` list.
pub open spec fn select_refs(sel: SelectSyntax) -> Set<Seq<char>>
    decreases sel,
{
    twjs_refs(sel.from@)
}

/// The table names referenced inside a `WITH` clause's list of
/// common-table-expression bodies.
pub open spec fn cte_refs(ctes: Seq<CteSyntax>) -> Set<Seq<char>>
    decreases ctes,
{
    if ctes.len() == 0 {
        Set::empty()
    } else {
        cte_refs(ctes.drop_last()).union(
            match ctes.last().body {
                Some(sel) => select_refs(sel),
                None => Set::empty(),
            },
        )
    }
}

/// The alias names a `WITH` clause defines; within their statement they
/// shadow any table or model of the same name.
pub open spec fn cte_aliases(ctes: Seq<CteSyntax>) -> Set<Seq<char>> {
    Set::new(|x: Seq<char>| exists|i: int| 0 <= i < ctes.len() && (#[trigger] ctes[i]).alias@
        == x)
}

/// The table names referenced by one statement: those of its
/// common-table-expression bodies and of its own select body, less the
/// statement's own locally defined alias names.
pub open spec fn statement_refs(st: StatementSyntax) -> Set<Seq<char>>
    decreases st,
{
    match st {
        StatementSyntax::Query { ctes, body } => cte_refs(ctes@).union(
            match body {
                Some(sel) => select_refs(sel),
                None => Set::empty(),
            },
        ).difference(cte_aliases(ctes@)),
        StatementSyntax::Other => Set::empty(),
    }
}

/// The table names referenced by a sequence of statements.
pub open spec fn statements_refs(sts: Seq<StatementSyntax>) -> Set<Seq<char>>
    decreases sts,
{
    if sts.len() == 0 {
        Set::empty()
    } else {
        statements_refs(sts.drop_last()).union(statement_refs(sts.last()))
    }
}

/// The set of names a vector of strings holds.
pub open spec fn names_set(v: Seq<String>) -> Set<Seq<char>> {
    Set::new(|n: Seq<char>| exists|i: int| 0 <= i < v.len() && v[i]@ == n)
}

/// Whether no two strings of the vector hold the same characters.
pub open spec fn no_dup_names(v: Seq<String>) -> bool {
    forall|i: int, j: int| 0 <= i < j < v.len() ==> v[i]@ != v[j]@
}

/// Whether the vector holds a string with these characters.
pub fn contains_name(names: &Vec<String>, name: &str) -> (r: bool)
    ensures
        r == names_set(names@).contains(name@),
{
    let mut i: usize = 0;
    while i < names.len()
        invariant
            0 <= i <= names@.len(),
            forall|k: int| 0 <= k < i ==> names@[k]@ != name@,
        decreases names@.len() - i,
    {
        if str_eq(names[i].as_str(), name) {
            return true;
        }
        i = i + 1;
    }
    false
}

/// Appends the name unless an equal one is already held.
fn insert_name(tables: &mut Vec<String>, name: String)
    requires
        no_dup_names(old(tables)@),
    ensures
        no_dup_names(final(tables)@),
        names_set(final(tables)@) == names_set(old(tables)@).insert(name@),
{
    let present = contains_name(tables, name.as_str());
    if !present {
        let ghost oldv = tables@;
        let ghost namev = name@;
        tables.push(name);
        proof {
            let newv = tables@;
            assert forall|n: Seq<char>| names_set(newv).contains(n) implies names_set(
                oldv).insert(namev).contains(n) by {
                let i = choose|i: int| 0 <= i < newv.len() && newv[i]@ == n;
                if i < oldv.len() {
                    assert(oldv[i]@ == n);
                } else {
                    assert(newv[i]@ == namev);
                }
            };
            assert forall|n: Seq<char>| names_set(oldv).insert(namev).contains(n) implies
                names_set(newv).contains(n) by {
                if n == namev {
                    assert(newv[oldv.len() as int]@ == n);
                } else {
                    let i = choose|i: int| 0 <= i < oldv.len() && oldv[i]@ == n;
                    assert(newv[i]@ == n);
                }
            };
            assert(names_set(newv) =~= names_set(oldv).insert(namev));
        }
    } else {
        assert(names_set(tables@) =~= names_set(tables@).insert(name@));
    }
}

/// Collects the table names of one `FROM`/`JOIN` target into the
/// accumulator.
fn extract_from_factor(tf: &TableFactorSyntax, tables: &mut Vec<String>)
    requires
        no_dup_names(old(tables)@),
    ensures
        no_dup_names(final(tables)@),
        names_set(final(tables)@) == names_set(old(tables)@).union(factor_refs(*tf)),
    decreases *tf,
{
    match tf {
        TableFactorSyntax::Table { name } => {
            insert_name(tables, name.clone());
            assert(names_set(tables@) =~= names_set(old(tables)@).union(factor_refs(*tf)));
        },
        TableFactorSyntax::Derived { body } => {
            match body {
                Some(sel) => {
                    extract_from_select(sel, tables);
                },
                None => {
                    assert(names_set(tables@) =~= names_set(tables@).union(Set::empty()));
                },
            }
        },
        TableFactorSyntax::Other => {
            assert(names_set(tables@) =~= names_set(tables@).union(Set::empty()));
        },
    }
}

/// Collects the table names of one `FROM` entry: its relation and each of
/// its join targets.
pub fn extract_dependency_names(twj: &TableWithJoinsSyntax, tables: &mut Vec<String>)
    requires
        no_dup_names(old(tables)@),
    ensures
        no_dup_names(final(tables)@),
        names_set(final(tables)@) == names_set(old(tables)@).union(twj_refs(*twj)),
    decreases *twj,
{
    extract_from_factor(&twj.relation, tables);
    let mut i: usize = 0;
    while i < twj.joins.len()
        invariant
            0 <= i <= twj.joins@.len(),
            no_dup_names(tables@),
            names_set(tables@) == names_set(old(tables)@).union(factor_refs(twj.relation)).union(
                factors_refs(twj.joins@.take(i as int))),
        decreases twj.joins@.len() - i,
    {
        proof {
            assert(twj.joins@.take(i + 1).drop_last() =~= twj.joins@.take(i as int));
            assert(twj.joins@.take(i + 1).last() == twj.joins@[i as int]);
        }
        extract_from_factor(&twj.joins[i], tables);
        assert(names_set(tables@) =~= names_set(old(tables)@).union(factor_refs(twj.relation))
            .union(factors_refs(twj.joins@.take(i + 1))));
        i = i + 1;
    }
    proof {
        assert(twj.joins@.take(twj.joins@.len() as int) =~= twj.joins@);
        assert(names_set(tables@) =~= names_set(old(tables)@).union(twj_refs(*twj)));
    }
}

/// Collects the table names of a select body's whole `FROM` list.
fn extract_from_select(sel: &SelectSyntax, tables: &mut Vec<String>)
    requires
        no_dup_names(old(tables)@),
    ensures
        no_dup_names(final(tables)@),
        names_set(final(tables)@) == names_set(old(tables)@).union(select_refs(*sel)),
    decreases *sel,
{
    let mut i: usize = 0;
    while i < sel.from.len()
        invariant
            0 <= i <= sel.from@.len(),
            no_dup_names(tables@),
            names_set(tables@) == names_set(old(tables)@).union(twjs_refs(sel.from@.take(
                i as int))),
        decreases sel.from@.len() - i,
    {
        proof {
            assert(sel.from@.take(i + 1).drop_last() =~= sel.from@.take(i as int));
            assert(sel.from@.take(i + 1).last() == sel.from@[i as int]);
        }
        extract_dependency_names(&sel.from[i], tables);
        assert(names_set(tables@) =~= names_set(old(tables)@).union(twjs_refs(sel.from@.take(
            i + 1))));
        i = i + 1;
    }
    proof {
        assert(sel.from@.take(sel.from@.len() as int) =~= sel.from@);
    }
}

/// Whether one of the common table expressions defines this alias name.
fn alias_contains(ctes: &Vec<CteSyntax>, name: &str) -> (r: bool)
    ensures
        r == cte_aliases(ctes@).contains(name@),
{
    let mut i: usize = 0;
    while i < ctes.len()
        invariant
            0 <= i <= ctes@.len(),
            forall|k: int| 0 <= k < i ==> (#[trigger] ctes@[k]).alias@ != name@,
        decreases ctes@.len() - i,
    {
        if str_eq(ctes[i].alias.as_str(), name) {
            return true;
        }
        i = i + 1;
    }
    false
}

/// Collects the table names one statement references: those of its
/// common-table-expression bodies and of its own select body, leaving out
/// the statement's own locally defined alias names.
fn extract_from_statement(st: &StatementSyntax, tables: &mut Vec<String>)
    requires
        no_dup_names(old(tables)@),
    ensures
        no_dup_names(final(tables)@),
        names_set(final(tables)@) == names_set(old(tables)@).union(statement_refs(*st)),
    decreases *st,
{
    match st {
        StatementSyntax::Query { ctes, body } => {
            let mut collected: Vec<String> = Vec::new();
            proof {
                assert(names_set(collected@) =~= Set::<Seq<char>>::empty());
            }
            let mut i: usize = 0;
            while i < ctes.len()
                invariant
                    0 <= i <= ctes@.len(),
                    no_dup_names(collected@),
                    names_set(collected@) == cte_refs(ctes@.take(i as int)),
                decreases ctes@.len() - i,
            {
                proof {
                    assert(ctes@.take(i + 1).drop_last() =~= ctes@.take(i as int));
                    assert(ctes@.take(i + 1).last() == ctes@[i as int]);
                }
                let ghost before = names_set(collected@);
                match &ctes[i].body {
                    Some(sel) => {
                        extract_from_select(sel, &mut collected);
                    },
                    None => {
                        proof {
                            assert(names_set(collected@) =~= before.union(Set::empty()));
                        }
                    },
                }
                assert(names_set(collected@) =~= cte_refs(ctes@.take(i + 1)));
                i = i + 1;
            }
            proof {
                assert(ctes@.take(ctes@.len() as int) =~= ctes@);
            }
            match body {
                Some(sel) => {
                    extract_from_select(sel, &mut collected);
                },
                None => {
                    proof {
                        assert(names_set(collected@) =~= names_set(collected@).union(
                            Set::empty()));
                    }
                },
            }
            let ghost gathered = names_set(collected@);
            let ghost aliases = cte_aliases(ctes@);
            // merge, leaving out the statement's own alias names
            let mut j: usize = 0;
            while j < collected.len()
                invariant
                    0 <= j <= collected@.len(),
                    gathered == names_set(collected@),
                    aliases == cte_aliases(ctes@),
                    no_dup_names(tables@),
                    names_set(tables@) == names_set(old(tables)@).union(names_set(
                        collected@.take(j as int)).difference(aliases)),
                decreases collected@.len() - j,
            {
                let nm = collected[j].clone();
                assert(nm@ == collected@[j as int]@);
                let is_alias = alias_contains(ctes, nm.as_str());
                if !is_alias {
                    insert_name(tables, nm);
                }
                proof {
                    let cj = collected@[j as int]@;
                    assert forall|n: Seq<char>| names_set(collected@.take(j + 1)).difference(
                        aliases).contains(n) implies (names_set(collected@.take(
                        j as int)).difference(aliases).contains(n) || (n == cj && !aliases.contains(
                        n))) by {
                        let w = choose|w: int| 0 <= w < j + 1 && (#[trigger] collected@.take(j
                            + 1)[w])@ == n;
                        if w < j {
                            assert(collected@.take(j as int)[w]@ == n);
                        } else {
                            assert(collected@[j as int]@ == n);
                        }
                    };
                    assert forall|n: Seq<char>| names_set(collected@.take(
                        j as int)).difference(aliases).contains(n) implies names_set(
                        collected@.take(j + 1)).difference(aliases).contains(n) by {
                        let w = choose|w: int| 0 <= w < j && (#[trigger] collected@.take(
                            j as int)[w])@ == n;
                        assert(collected@.take(j + 1)[w]@ == n);
                    };
                    if !is_alias {
                        assert(names_set(collected@.take(j + 1)).contains(cj)) by {
                            assert(collected@.take(j + 1)[j as int]@ == cj);
                        };
                        assert(names_set(tables@) =~= names_set(old(tables)@).union(names_set(
                            collected@.take(j + 1)).difference(aliases)));
                    } else {
                        assert(names_set(tables@) =~= names_set(old(tables)@).union(names_set(
                            collected@.take(j + 1)).difference(aliases)));
                    }
                }
                j = j + 1;
            }
            proof {
                assert(collected@.take(collected@.len() as int) =~= collected@);
                assert(names_set(tables@) =~= names_set(old(tables)@).union(statement_refs(
                    *st)));
            }
        },
        StatementSyntax::Other => {
            assert(names_set(tables@) =~= names_set(tables@).union(Set::empty()));
        },
    }
}

/// Collects every table name a parsed statement list references, without
/// duplicates.
pub fn collect_statement_refs(stmts: &Vec<StatementSyntax>) -> (r: Vec<String>)
    ensures
        no_dup_names(r@),
        names_set(r@) == statements_refs(stmts@),
{
    let mut tables: Vec<String> = Vec::new();
    assert(names_set(tables@) =~= Set::<Seq<char>>::empty());
    let mut i: usize = 0;
    while i < stmts.len()
        invariant
            0 <= i <= stmts@.len(),
            no_dup_names(tables@),
            names_set(tables@) == statements_refs(stmts@.take(i as int)),
        decreases stmts@.len() - i,
    {
        proof {
            assert(stmts@.take(i + 1).drop_last() =~= stmts@.take(i as int));
            assert(stmts@.take(i + 1).last() == stmts@[i as int]);
        }
        extract_from_statement(&stmts[i], &mut tables);
        assert(names_set(tables@) =~= statements_refs(stmts@.take(i + 1)));
        i = i + 1;
    }
    proof {
        assert(stmts@.take(stmts@.len() as int) =~= stmts@);
    }
    tables
}

#[verifier::external_type_specification]
#[verifier::external_body]
pub struct ExStatement(sqlparser::ast::Statement);

#[verifier::external_type_specification]
#[verifier::external_body]
pub struct ExQuery(sqlparser::ast::Query);

#[verifier::external_type_specification]
#[verifier::external_body]
pub struct ExTableFactor(sqlparser::ast::TableFactor);

/// Converts one `FROM`/`JOIN` target of a parsed statement, one variant for
/// one variant; a named table keeps its (possibly dotted) printed name.
#[verifier::external_body]
fn syntax_of_factor(tf: &sqlparser::ast::TableFactor) -> TableFactorSyntax {
    match tf {
        sqlparser::ast::TableFactor::Table { name, .. } => TableFactorSyntax::Table {
            name: name.to_string(),
        },
        sqlparser::ast::TableFactor::Derived { subquery, .. } => TableFactorSyntax::Derived {
            body: syntax_of_body(subquery),
        },
        _ => TableFactorSyntax::Other,
    }
}

/// Converts a query's body where it is a plain select: its `FROM` list,
/// entry by entry, each with its join targets.
#[verifier::external_body]
fn syntax_of_body(q: &sqlparser::ast::Query) -> Option<SelectSyntax> {
    match &*q.body {
        sqlparser::ast::SetExpr::Select(sel) => {
            let mut from = Vec::new();
            for twj in &sel.from {
                let mut joins = Vec::new();
                for j in &twj.joins {
                    joins.push(syntax_of_factor(&j.relation));
                }
                from.push(TableWithJoinsSyntax { relation: syntax_of_factor(&twj.relation), joins });
            }
            Some(SelectSyntax { from })
        },
        _ => None,
    }
}

/// Converts one parsed statement: a query keeps its common-table-expression
/// aliases and bodies and its own body; any other statement carries nothing.
#[verifier::external_body]
fn syntax_of_statement(st: &sqlparser::ast::Statement) -> StatementSyntax {
    match st {
        sqlparser::ast::Statement::Query(q) => {
            let mut ctes = Vec::new();
            if let Some(w) = &q.with {
                for cte in &w.cte_tables {
                    ctes.push(CteSyntax {
                        alias: cte.alias.name.to_string(),
                        body: syntax_of_body(&cte.query),
                    });
                }
            }
            StatementSyntax::Query { ctes, body: syntax_of_body(q) }
        },
        _ => StatementSyntax::Other,
    }
}

/// What parsing a SQL text yields, statement by statement. Parsing is a
/// function of the text alone.
pub uninterp spec fn parsed_statements(sql: Seq<char>) -> Seq<StatementSyntax>;

/// Whether the parser accepts a SQL text; acceptance is a function of the
/// text alone.
pub uninterp spec fn parse_ok(sql: Seq<char>) -> bool;

/// Relies on `sqlparser::parser::Parser::parse_sql` with the DuckDB dialect:
/// it parses the given text alone, deterministically, so success depends on
/// the text alone; on success the parsed statements are converted one for
/// one into their [`StatementSyntax`] shape, and on failure the parser's
/// message is returned.
#[verifier::external_body]
fn parse_sql_statements(sql: &str) -> (r: Result<Vec<StatementSyntax>, String>)
    ensures
        r is Ok <==> parse_ok(sql@),
        r matches Ok(v) ==> v@ == parsed_statements(sql@),
{
    match sqlparser::parser::Parser::parse_sql(&sqlparser::dialect::DuckDbDialect {}, sql) {
        Ok(stmts) => {
            let mut out = Vec::new();
            for st in &stmts {
                out.push(syntax_of_statement(st));
            }
            Ok(out)
        },
        Err(e) => Err(e.to_string()),
    }
}

/// Extracts the table names a single rendered SQL text references, reading
/// `FROM` and `JOIN` targets at every nesting level, common table
/// expressions and derived tables included; each statement's own
/// common-table-expression alias names are left out. A text the parser
/// refuses is a discovery error.
pub fn get_sql_references(stmt: &str) -> (r: Result<Vec<String>, ArnabError>)
    ensures
        r is Ok <==> parse_ok(stmt@),
        r matches Ok(names) ==> no_dup_names(names@) && names_set(names@) == statements_refs(
            parsed_statements(stmt@)),
        r matches Err(e) ==> e is Error,
{
    match parse_sql_statements(stmt) {
        Ok(stmts) => Ok(collect_statement_refs(&stmts)),
        Err(msg) => Err(ArnabError::Error(msg)),
    }
}

} // verus!

