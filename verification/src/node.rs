//! A model node: one SQL transformation unit, with its rendering state, its
//! dependency sets and the planning of its statements for execution.
use vstd::prelude::*;
use vstd::string::StrSliceExecFns;
use vstd::string::StringExecFns;

use crate::errors::ArnabError;
use crate::render::{
    build_template_source, render_ok, render_template, rendered_template, template_source,
};
use crate::sqlrefs::{
    contains_name, get_sql_references, names_set, no_dup_names, parse_ok, parsed_statements,
    statements_refs,
};
use crate::text::{
    lower_seq, split_on, starts_with_ci, str_eq_ci, str_starts_with_ci, trim_str, trimmed,
    views_of, split_str,
};

verus! {

/// The declared kind of a model source; only SQL sources exist.
#[derive(Clone, Copy, Debug)]
pub enum NodeType {
    Sql,
}

/// What a successful execution of a model reports: the row count measured
/// for a table materialization (zero for views).
#[derive(Debug)]
pub enum NodeExecutionResult {
    Sql { n_rows: usize },
}

/// The materialized form of a model's record-producing statement.
#[derive(Clone, Copy, PartialEq, Eq, Structural)]
pub enum MaterializationKind {
    View,
    Table,
}

/// One transformation unit: its source location, identifier, raw and
/// rendered SQL, graph edges and materialization setting.
#[derive(Debug)]
pub struct Node {
    pub path: String,
    pub id: String,
    pub raw_src: String,
    pub rendered_src: String,
    pub nexts: Vec<String>,
    pub prevs: Vec<String>,
    pub node_type: NodeType,
    pub materialize: Option<String>,
}

impl Node {
    /// Builds a fresh node with empty rendered text and no edges.
    pub fn new(node_type: NodeType, path: &str, id: &str, raw_src: &str) -> (r: Self)
        ensures
            r.path@ == path@,
            r.id@ == id@,
            r.raw_src@ == raw_src@,
            r.rendered_src@ == Seq::<char>::empty(),
            r.nexts@.len() == 0,
            r.prevs@.len() == 0,
            r.materialize is None,
    {
        Self {
            path: path.to_owned(),
            id: id.to_owned(),
            raw_src: raw_src.to_owned(),
            rendered_src: String::new(),
            nexts: Vec::new(),
            prevs: Vec::new(),
            materialize: None,
            node_type,
        }
    }
}

/// Whether a statement yields records: it begins, without regard to ASCII
/// case, with `SELECT` or `WITH`.
pub open spec fn is_record_producing(s: Seq<char>) -> bool {
    starts_with_ci(s, "SELECT"@) || starts_with_ci(s, "WITH"@)
}

impl Node {
    /// Classifies one statement fragment as record-producing or not.
    pub fn will_produce_records(&self, statement: &str) -> (r: bool)
        ensures
            r == is_record_producing(statement@),
    {
        str_starts_with_ci(statement, "SELECT") || str_starts_with_ci(statement, "WITH")
    }
}

impl Node {
    /// Renders this node's SQL and populates its dependency set: comments
    /// are stripped, the macro bodies are prepended, the template is
    /// expanded, and the rendered text's table references are filtered to
    /// the known model names. This succeeds exactly when the engine renders
    /// the assembled template and the parser accepts the rendered text; a
    /// failure is a discovery error and leaves the node as it was.
    pub fn render_and_populate_refs(&mut self, macros: &Vec<String>, all_model_names: &Vec<
        String>) -> (r: Result<(), ArnabError>)
        ensures
            final(self).id@ == old(self).id@,
            final(self).path@ == old(self).path@,
            final(self).raw_src@ == old(self).raw_src@,
            final(self).nexts@ == old(self).nexts@,
            final(self).materialize == old(self).materialize,
            r is Ok <==> ({
                let template = template_source(views_of(macros@), old(self).raw_src@);
                render_ok(template) && parse_ok(rendered_template(template))
            }),
            r matches Err(e) ==> e is Error,
            r is Ok ==> ({
                let rendered = rendered_template(template_source(views_of(macros@), old(
                    self).raw_src@));
                &&& final(self).rendered_src@ == rendered
                &&& no_dup_names(final(self).prevs@)
                &&& names_set(final(self).prevs@) == statements_refs(parsed_statements(
                    rendered)).intersect(names_set(all_model_names@))
            }),
            r is Err ==> *final(self) == *old(self),
    {
        let template = build_template_source(macros, self.raw_src.as_str());
        let rendered = match render_template(template.as_str()) {
            Ok(s) => s,
            Err(m) => {
                return Err(ArnabError::Error(m));
            },
        };
        let refs = match get_sql_references(rendered.as_str()) {
            Ok(v) => v,
            Err(e) => {
                return Err(e);
            },
        };
        let ghost refset = statements_refs(parsed_statements(rendered@));
        let ghost modelset = names_set(all_model_names@);
        let mut prevs: Vec<String> = Vec::new();
        let mut i: usize = 0;
        while i < refs.len()
            invariant
                0 <= i <= refs@.len(),
                no_dup_names(refs@),
                modelset == names_set(all_model_names@),
                names_set(refs@) == refset,
                no_dup_names(prevs@),
                names_set(prevs@) == names_set(refs@.take(i as int)).intersect(modelset),
            decreases refs@.len() - i,
        {
            let current = refs[i].clone();
            let in_universe = contains_name(all_model_names, current.as_str());
            assert(in_universe == names_set(all_model_names@).contains(current@));
            assert(current@ == refs@[i as int]@);
            assert(in_universe == modelset.contains(refs@[i as int]@));
            if in_universe {
                proof {
                    assert forall|k: int| 0 <= k < prevs@.len() implies prevs@[k]@ != refs@[
                        i as int]@ by {
                        assert(names_set(prevs@).contains(prevs@[k]@));
                        let j = choose|j: int| 0 <= j < i && (#[trigger] refs@.take(i as int)[j])@ == prevs@[
                            k]@;
                        assert(refs@[j]@ == prevs@[k]@);
                    };
                }
                let ghost oldp = prevs@;
                prevs.push(current);
                proof {
                    assert(modelset.contains(refs@[i as int]@));
                    assert forall|n: Seq<char>| names_set(prevs@).contains(n) implies names_set(
                        refs@.take(i + 1)).intersect(modelset).contains(n) by {
                        let k = choose|k: int| 0 <= k < prevs@.len() && prevs@[k]@ == n;
                        if k < oldp.len() {
                            assert(oldp[k]@ == n);
                            assert(names_set(oldp).contains(n));
                            assert(names_set(refs@.take(i as int)).contains(n));
                            assert(modelset.contains(n));
                            let j = choose|j: int| 0 <= j < i && (#[trigger] refs@.take(
                                i as int)[j])@ == n;
                            assert(refs@.take(i + 1)[j]@ == n);
                            assert(names_set(refs@.take(i + 1)).contains(n));
                        } else {
                            assert(prevs@[k]@ == refs@[i as int]@);
                            assert(refs@.take(i + 1)[i as int]@ == n);
                            assert(names_set(refs@.take(i + 1)).contains(n));
                        }
                    };
                    assert forall|n: Seq<char>| names_set(refs@.take(i + 1)).intersect(
                        modelset).contains(n) implies names_set(prevs@).contains(n) by {
                        let j = choose|j: int| 0 <= j < i + 1 && (#[trigger] refs@.take(i + 1)[
                            j])@ == n;
                        if j < i {
                            assert(names_set(refs@.take(i as int)).contains(n)) by {
                                assert(refs@.take(i as int)[j]@ == n);
                            };
                            assert(names_set(oldp).contains(n));
                            let k = choose|k: int| 0 <= k < oldp.len() && oldp[k]@ == n;
                            assert(prevs@[k]@ == n);
                        } else {
                            assert(prevs@[prevs@.len() - 1]@ == n);
                        }
                    };
                    assert(names_set(prevs@) =~= names_set(refs@.take(i + 1)).intersect(
                        modelset));
                }
            } else {
                proof {
                    assert(!modelset.contains(refs@[i as int]@));
                    assert forall|n: Seq<char>| names_set(refs@.take(i + 1)).intersect(
                        modelset).contains(n) implies names_set(refs@.take(i as int)).intersect(
                        modelset).contains(n) by {
                        let j = choose|j: int| 0 <= j < i + 1 && (#[trigger] refs@.take(i + 1)[j])@ == n;
                        if j < i {
                            assert(refs@.take(i as int)[j]@ == n);
                            assert(names_set(refs@.take(i as int)).contains(n));
                        } else {
                            assert(refs@.take(i + 1)[j] == refs@[i as int]);
                            assert(refs@[i as int]@ == n);
                            assert(modelset.contains(n));
                            assert(false);
                        }
                    };
                    assert forall|n: Seq<char>| names_set(refs@.take(i as int)).intersect(
                        modelset).contains(n) implies names_set(refs@.take(i + 1)).intersect(
                        modelset).contains(n) by {
                        let j = choose|j: int| 0 <= j < i && (#[trigger] refs@.take(i as int)[j])@ == n;
                        assert(refs@.take(i + 1)[j]@ == n);
                    };
                    assert(names_set(prevs@) =~= names_set(refs@.take(i + 1)).intersect(
                        modelset));
                }
            }
            i = i + 1;
        }
        proof {
            assert(refs@.take(refs@.len() as int) =~= refs@);
        }
        self.rendered_src = rendered;
        self.prevs = prevs;
        Ok(())
    }
}

/// The view of an optional string.
pub open spec fn opt_view(m: Option<String>) -> Option<Seq<char>> {
    match m {
        Some(s) => Some(s@),
        None => None,
    }
}

/// The materialization a configured value names: absent means a view, and
/// `table` and `view` are matched without regard to ASCII case; anything
/// else is unknown.
pub open spec fn materialization_kind(m: Option<Seq<char>>) -> Option<MaterializationKind> {
    match m {
        None => Some(MaterializationKind::View),
        Some(s) => if lower_seq(s) == "table"@ {
            Some(MaterializationKind::Table)
        } else if lower_seq(s) == "view"@ {
            Some(MaterializationKind::View)
        } else {
            None
        },
    }
}

proof fn lemma_keyword_lower()
    ensures
        lower_seq("table"@) == "table"@,
        lower_seq("view"@) == "view"@,
{
    reveal_strlit("table");
    reveal_strlit("view");
    assert(lower_seq("table"@) =~= "table"@);
    assert(lower_seq("view"@) =~= "view"@);
}

/// Reads a configured materialization value into its kind, if it is a known
/// one.
pub fn materialization_kind_of(m: &Option<String>) -> (r: Option<MaterializationKind>)
    ensures
        r == materialization_kind(opt_view(*m)),
{
    proof {
        lemma_keyword_lower();
    }
    match m {
        None => Some(MaterializationKind::View),
        Some(s) => {
            if str_eq_ci(s.as_str(), "table") {
                Some(MaterializationKind::Table)
            } else if str_eq_ci(s.as_str(), "view") {
                Some(MaterializationKind::View)
            } else {
                None
            }
        },
    }
}

/// The trimmed, non-empty pieces of a piece list, in order.
pub open spec fn nonempty_trimmed(parts: Seq<Seq<char>>) -> Seq<Seq<char>>
    decreases parts.len(),
{
    if parts.len() == 0 {
        Seq::empty()
    } else {
        let rest = nonempty_trimmed(parts.drop_last());
        let t = trimmed(parts.last());
        if t.len() == 0 {
            rest
        } else {
            rest.push(t)
        }
    }
}

/// A rendered model text split into statement fragments: the text is split
/// on the statement terminator, each fragment trimmed, and empty fragments
/// discarded.
pub open spec fn split_statements(rendered: Seq<char>) -> Seq<Seq<char>> {
    nonempty_trimmed(split_on(rendered, ';'))
}

/// Splits a rendered model text into its statement fragments.
pub fn split_statements_str(rendered: &str) -> (r: Vec<String>)
    ensures
        views_of(r@) == split_statements(rendered@),
{
    let pieces = split_str(rendered, ';');
    let mut kept: Vec<String> = Vec::new();
    let mut i: usize = 0;
    while i < pieces.len()
        invariant
            0 <= i <= pieces@.len(),
            views_of(kept@) =~= nonempty_trimmed(views_of(pieces@).take(i as int)),
        decreases pieces@.len() - i,
    {
        proof {
            let vs = views_of(pieces@);
            assert(vs.take(i + 1).drop_last() =~= vs.take(i as int));
            assert(vs.take(i + 1).last() == pieces@[i as int]@);
        }
        let t = trim_str(pieces[i].as_str());
        if t.as_str().unicode_len() > 0 {
            kept.push(t);
            assert(views_of(kept@) =~= views_of(kept@.drop_last()).push(trimmed(
                pieces@[i as int]@)));
        }
        i = i + 1;
    }
    assert(views_of(pieces@).take(pieces@.len() as int) =~= views_of(pieces@));
    kept
}

/// How many fragments of a statement list produce records.
pub open spec fn count_record_producing(stmts: Seq<Seq<char>>) -> int
    decreases stmts.len(),
{
    if stmts.len() == 0 {
        0
    } else {
        count_record_producing(stmts.drop_last()) + if is_record_producing(stmts.last()) {
            1int
        } else {
            0int
        }
    }
}

/// The view-materialization rewrite of a record-producing statement.
pub open spec fn view_statement(id: Seq<char>, stmt: Seq<char>) -> Seq<char> {
    "CREATE OR REPLACE VIEW "@ + id + " AS ("@ + stmt + ")"@
}

/// The table-materialization rewrite of a record-producing statement.
pub open spec fn table_statement(id: Seq<char>, stmt: Seq<char>) -> Seq<char> {
    "CREATE OR REPLACE TABLE "@ + id + " AS ("@ + stmt + ")"@
}

/// What is actually executed for one fragment: record-producing fragments
/// are rewritten into their materialization statement, the rest run as they
/// stand.
pub open spec fn adjusted_statement(id: Seq<char>, kind: MaterializationKind, stmt: Seq<char>)
    -> Seq<char> {
    if !is_record_producing(stmt) {
        stmt
    } else if kind is Table {
        table_statement(id, stmt)
    } else {
        view_statement(id, stmt)
    }
}

/// The row-count query issued after a table materialization.
pub open spec fn count_statement(id: Seq<char>) -> Seq<char> {
    "SELECT COUNT(*) FROM "@ + id
}

/// One fragment as planned: the original text, kept for error reporting,
/// and the adjusted text that is executed.
#[derive(Debug)]
pub struct PlannedStatement {
    pub original: String,
    pub adjusted: String,
}

/// A model's validated execution plan: its fragments in original order, and
/// the row-count query when the model materializes as a table.
#[derive(Debug)]
pub struct SqlPlan {
    pub statements: Vec<PlannedStatement>,
    pub count_sql: Option<String>,
}

/// Whether `plan` is exactly the plan for a model with this identifier,
/// rendered text and materialization kind.
pub open spec fn plan_matches(plan: SqlPlan, id: Seq<char>, rendered: Seq<char>,
    kind: MaterializationKind) -> bool {
    let stmts = split_statements(rendered);
    &&& plan.statements@.len() == stmts.len()
    &&& forall|i: int| 0 <= i < stmts.len() ==> (#[trigger] plan.statements@[i]).original@
        == stmts[i] && plan.statements@[i].adjusted@ == adjusted_statement(id, kind, stmts[i])
    &&& match plan.count_sql {
        Some(c) => kind is Table && c@ == count_statement(id),
        None => kind is View,
    }
}

/// Whether `r` is exactly what planning owes a model with this identifier,
/// rendered text and configured materialization: a full plan when exactly
/// one fragment produces records and the materialization is known, and the
/// fitting model-definition error otherwise.
pub open spec fn plan_result_ok(id: Seq<char>, rendered: Seq<char>, materialize: Option<
    Seq<char>>, r: Result<SqlPlan, ArnabError>) -> bool {
    let stmts = split_statements(rendered);
    let mk = materialization_kind(materialize);
    match r {
        Ok(plan) => count_record_producing(stmts) == 1 && mk is Some && plan_matches(plan, id,
            rendered, mk->0),
        Err(e) => (count_record_producing(stmts) != 1 || mk is None) && match e {
            ArnabError::Error(m) => if count_record_producing(stmts) != 1 {
                m@ == "Models must have exactly one record-producing statement."@
            } else {
                mk is None && m@ == "Unknown materialization type `"@ + materialize->0 + "`"@
            },
            _ => false,
        },
    }
}

impl Node {
    /// Validates and rewrites this node's rendered text into its execution
    /// plan. Exactly one fragment must produce records, and the configured
    /// materialization must be a known one; otherwise the node fails with a
    /// model-definition error and nothing is planned.
    pub fn plan_sql(&self) -> (r: Result<SqlPlan, ArnabError>)
        ensures
            plan_result_ok(self.id@, self.rendered_src@, opt_view(self.materialize), r),
    {
        let stmts = split_statements_str(self.rendered_src.as_str());
        let ghost svs = split_statements(self.rendered_src@);
        let mut nrp: usize = 0;
        let mut i: usize = 0;
        while i < stmts.len()
            invariant
                0 <= i <= stmts@.len(),
                views_of(stmts@) == svs,
                nrp <= i,
                nrp == count_record_producing(svs.take(i as int)),
            decreases stmts@.len() - i,
        {
            proof {
                assert(svs.take(i + 1).drop_last() =~= svs.take(i as int));
                assert(svs.take(i + 1).last() == stmts@[i as int]@);
            }
            if self.will_produce_records(stmts[i].as_str()) {
                nrp = nrp + 1;
            }
            i = i + 1;
        }
        proof {
            assert(svs.take(svs.len() as int) =~= svs);
        }
        if nrp != 1 {
            return Err(ArnabError::Error(String::from_str(
                "Models must have exactly one record-producing statement.")));
        }
        let kind = match materialization_kind_of(&self.materialize) {
            Some(k) => k,
            None => {
                let mut msg = String::new();
                msg.append("Unknown materialization type `");
                match &self.materialize {
                    Some(m) => msg.append(m.as_str()),
                    None => (),
                }
                msg.append("`");
                return Err(ArnabError::Error(msg));
            },
        };
        let mut planned: Vec<PlannedStatement> = Vec::new();
        let mut j: usize = 0;
        while j < stmts.len()
            invariant
                0 <= j <= stmts@.len(),
                views_of(stmts@) == svs,
                planned@.len() == j,
                forall|k: int| 0 <= k < j ==> (#[trigger] planned@[k]).original@ == svs[k]
                    && planned@[k].adjusted@ == adjusted_statement(self.id@, kind, svs[k]),
            decreases stmts@.len() - j,
        {
            let original = stmts[j].clone();
            let adjusted: String = if self.will_produce_records(stmts[j].as_str()) {
                let mut out = String::new();
                if let MaterializationKind::Table = kind {
                    out.append("CREATE OR REPLACE TABLE ");
                } else {
                    out.append("CREATE OR REPLACE VIEW ");
                }
                out.append(self.id.as_str());
                out.append(" AS (");
                out.append(stmts[j].as_str());
                out.append(")");
                out
            } else {
                stmts[j].clone()
            };
            planned.push(PlannedStatement { original, adjusted });
            j = j + 1;
        }
        let count_sql: Option<String> = if let MaterializationKind::Table = kind {
            let mut c = String::new();
            c.append("SELECT COUNT(*) FROM ");
            c.append(self.id.as_str());
            Some(c)
        } else {
            None
        };
        Ok(SqlPlan { statements: planned, count_sql })
    }

    /// Decides this model's outcome from what execution reported back: the
    /// first failing fragment with the engine's message, if any, and the
    /// measured row count, if one was taken. A failure is charged to the
    /// fragment's original text and this node's source path; success reports
    /// the row count, zero when none was measured.
    pub fn outcome_from_run(&self, plan: &SqlPlan, failure: Option<(usize, String)>,
        n_rows: Option<usize>) -> (r: Result<NodeExecutionResult, ArnabError>)
        requires
            match failure {
                Some(f) => f.0 < plan.statements@.len(),
                None => true,
            },
        ensures
            match failure {
                Some(f) => r matches Err(ArnabError::StatementExecutionError { msg, sql, path })
                    && msg@ == f.1@ && sql@ == plan.statements@[f.0 as int].original@ && path@
                    == self.path@,
                None => r matches Ok(NodeExecutionResult::Sql { n_rows: n }) && n == (match n_rows {
                    Some(v) => v,
                    None => 0,
                }),
            },
    {
        match failure {
            Some(f) => Err(ArnabError::StatementExecutionError {
                msg: f.1,
                sql: plan.statements[f.0].original.clone(),
                path: self.path.clone(),
            }),
            None => Ok(NodeExecutionResult::Sql {
                n_rows: match n_rows {
                    Some(v) => v,
                    None => 0,
                },
            }),
        }
    }
}

} // verus!
