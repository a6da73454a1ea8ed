//! One pipeline run: building the model registry from discovered sources,
//! rendering every model, wiring the dependency graph, scheduling, and
//! planning each model's statements for the host to execute in order.
use vstd::prelude::*;
use vstd::string::StrSliceExecFns;
use vstd::string::StringExecFns;

use crate::errors::ArnabError;
use crate::node::{
    plan_result_ok, Node, NodeExecutionResult, NodeType, SqlPlan, opt_view,
};
use crate::render::{render_ok, rendered_template, template_source};
use crate::sqlrefs::{
    contains_name, names_set, no_dup_names, parse_ok, parsed_statements, statements_refs,
};
use crate::text::{dec_rep, join_strs, join_with, str_eq, u64_to_string, views_of};

verus! {

/// Per-model settings a configuration may carry.
#[derive(Debug)]
pub struct ModelInfo {
    pub materialize: Option<String>,
}

/// The run configuration: storage location, source directories and
/// per-model settings; session pragmas are applied by the host before the
/// run and pass through untouched.
#[derive(Debug)]
pub struct Config {
    pub db_path: Option<String>,
    pub macro_path: Option<String>,
    pub model_path: Option<String>,
    pub models: Option<Vec<(String, ModelInfo)>>,
    pub duckdb_settings: Option<Vec<(String, String)>>,
}

/// One discovered model source file, as the loader hands it over.
#[derive(Debug)]
pub struct ModelSource {
    pub path: String,
    pub id: String,
    pub extension: String,
    pub raw_src: String,
}

/// One scheduled model with its validated statement plan, or the
/// model-definition error that planning raised.
#[derive(Debug)]
pub struct ModelPlan {
    pub id: String,
    pub path: String,
    pub plan: Result<SqlPlan, ArnabError>,
}

/// Everything a run decides before any statement executes: the rendered
/// registry, the schedule, the per-model plans in schedule order, the
/// unresolved-reference warnings and the unresolved identifiers themselves.
#[derive(Debug)]
pub struct RunPlan {
    pub nodes: Vec<Node>,
    pub order: Vec<String>,
    pub model_plans: Vec<ModelPlan>,
    pub warnings: Vec<String>,
    pub invalid_ids: Vec<String>,
}

/// The set of model identifiers a registry holds.
pub open spec fn ids_set(nodes: Seq<Node>) -> Set<Seq<char>> {
    Set::new(|x: Seq<char>| exists|i: int| 0 <= i < nodes.len() && nodes[i].id@ == x)
}

/// Whether no two registry entries share an identifier.
pub open spec fn unique_ids(nodes: Seq<Node>) -> bool {
    forall|i: int, j: int| 0 <= i < j < nodes.len() ==> nodes[i].id@ != nodes[j].id@
}

/// The materialization value the configuration names for a model, reading
/// the first matching entry; absent settings leave it unset.
pub open spec fn config_materialize_in(models: Seq<(String, ModelInfo)>, id: Seq<char>)
    -> Option<Seq<char>>
    decreases models.len(),
{
    if models.len() == 0 {
        None
    } else if models.first().0@ == id {
        opt_view(models.first().1.materialize)
    } else {
        config_materialize_in(models.drop_first(), id)
    }
}

/// The materialization value the configuration names for a model.
pub open spec fn config_materialize(models: Option<Vec<(String, ModelInfo)>>, id: Seq<char>)
    -> Option<Seq<char>> {
    match models {
        Some(v) => config_materialize_in(v@, id),
        None => None,
    }
}

/// Reads the configured materialization for one model identifier.
fn lookup_materialize(models: &Option<Vec<(String, ModelInfo)>>, id: &str) -> (r: Option<String>)
    ensures
        opt_view(r) == config_materialize(*models, id@),
{
    match models {
        None => None,
        Some(v) => {
            assert(config_materialize(*models, id@) == config_materialize_in(v@, id@));
            let mut i: usize = 0;
            proof {
                assert(v@.skip(0) =~= v@);
            }
            while i < v.len()
                invariant
                    0 <= i <= v@.len(),
                    config_materialize(*models, id@) == config_materialize_in(v@, id@),
                    config_materialize_in(v@, id@) == config_materialize_in(v@.skip(i as int),
                        id@),
                decreases v@.len() - i,
            {
                proof {
                    assert(v@.skip(i as int).first() == v@[i as int]);
                    assert(v@.skip(i as int).drop_first() =~= v@.skip(i + 1));
                }
                if str_eq(v[i].0.as_str(), id) {
                    proof {
                        assert(config_materialize_in(v@.skip(i as int), id@) == opt_view(v@[
                            i as int].1.materialize));
                    }
                    let mopt = &v[i].1.materialize;
                    assert(*mopt == v@[i as int].1.materialize);
                    let r: Option<String> = match mopt {
                        Some(m) => Some(m.clone()),
                        None => None,
                    };
                    assert(opt_view(r) == opt_view(*mopt));
                    return r;
                }
                i = i + 1;
            }
            proof {
                assert(v@.skip(v@.len() as int).len() == 0);
            }
            None
        },
    }
}

/// Finds the registry entry with this identifier.
pub fn find_node(nodes: &Vec<Node>, id: &str) -> (r: Option<usize>)
    ensures
        match r {
            Some(k) => (k as int) < nodes@.len() && nodes@[k as int].id@ == id@,
            None => forall|k: int| 0 <= k < nodes@.len() ==> (#[trigger] nodes@[k]).id@ != id@,
        },
{
    let mut i: usize = 0;
    while i < nodes.len()
        invariant
            0 <= i <= nodes@.len(),
            forall|k: int| 0 <= k < i ==> (#[trigger] nodes@[k]).id@ != id@,
        decreases nodes@.len() - i,
    {
        if str_eq(nodes[i].id.as_str(), id) {
            return Some(i);
        }
        i = i + 1;
    }
    None
}

/// Whether `k` indexes the last source carrying its identifier; that source
/// is the one the registry keeps for the identifier.
pub open spec fn last_with_id(sources: Seq<ModelSource>, k: int) -> bool {
    0 <= k < sources.len() && forall|j: int| k < j < sources.len() ==> (#[trigger] sources[
        j]).id@ != sources[k].id@
}

proof fn lemma_last_unique(sources: Seq<ModelSource>, k1: int, k2: int)
    requires
        last_with_id(sources, k1),
        last_with_id(sources, k2),
        sources[k1].id@ == sources[k2].id@,
    ensures
        k1 == k2,
{
    if k1 < k2 {
        assert(sources[k2].id@ != sources[k1].id@);
    }
    if k2 < k1 {
        assert(sources[k1].id@ != sources[k2].id@);
    }
}

/// Whether a node's identity and source text come from the last source with
/// its identifier, and its materialization from the configuration.
pub open spec fn source_backed(node: Node, sources: Seq<ModelSource>, models: Option<Vec<(
    String, ModelInfo)>>) -> bool {
    &&& exists|k: int| last_with_id(sources, k) && (#[trigger] sources[k]).id@ == node.id@
        && sources[k].path@ == node.path@ && sources[k].raw_src@ == node.raw_src@
    &&& opt_view(node.materialize) == config_materialize(models, node.id@)
}

/// Builds the registry from the discovered sources: each source must carry
/// the `sql` type, identifiers are unique (a later source replaces an
/// earlier one with the same identifier), and each node takes its
/// materialization from the configuration.
fn build_registry(sources: &Vec<ModelSource>, models: &Option<Vec<(String, ModelInfo)>>) -> (r:
    Result<Vec<Node>, ArnabError>)
    ensures
        r matches Ok(nodes) ==> ({
            &&& unique_ids(nodes@)
            &&& forall|i: int| 0 <= i < nodes@.len() ==> source_backed(#[trigger] nodes@[i],
                sources@, *models)
            &&& forall|k: int| 0 <= k < sources@.len() ==> ids_set(nodes@).contains((
                #[trigger] sources@[k]).id@)
            &&& forall|i: int| 0 <= i < nodes@.len() ==> (#[trigger] nodes@[i]).rendered_src@
                == Seq::<char>::empty() && nodes@[i].nexts@.len() == 0 && nodes@[i].prevs@.len()
                == 0
        }),
        r matches Ok(nodes) ==> (forall|k: int|
            last_with_id(sources@, k) ==> exists|m: int| 0 <= m < nodes@.len() && (
            #[trigger] nodes@[m]).id@ == sources@[k].id@ && nodes@[m].path@ == sources@[k].path@
                && nodes@[m].raw_src@ == sources@[k].raw_src@),
        r is Ok ==> (forall|k: int| 0 <= k < sources@.len() ==> (#[trigger] sources@[
            k]).extension@ == "sql"@),
        r matches Err(e) ==> (e matches ArnabError::UnknownModelType(t) && exists|k: int|
            0 <= k < sources@.len() && (#[trigger] sources@[k]).extension@ == t@ && t@
            != "sql"@),
        (forall|k: int| 0 <= k < sources@.len() ==> (#[trigger] sources@[k]).extension@
            == "sql"@) ==> r is Ok,
{
    let mut nodes: Vec<Node> = Vec::new();
    let mut i: usize = 0;
    while i < sources.len()
        invariant
            0 <= i <= sources@.len(),
            unique_ids(nodes@),
            forall|k: int| 0 <= k < nodes@.len() ==> source_backed(#[trigger] nodes@[k],
                sources@.take(i as int), *models),
            forall|k: int| 0 <= k < i ==> ids_set(nodes@).contains((#[trigger] sources@[k]).id@),
            forall|k: int| 0 <= k < i ==> (#[trigger] sources@[k]).extension@ == "sql"@,
            forall|k: int| 0 <= k < nodes@.len() ==> (#[trigger] nodes@[k]).rendered_src@
                == Seq::<char>::empty() && nodes@[k].nexts@.len() == 0 && nodes@[k].prevs@.len()
                == 0,
        decreases sources@.len() - i,
    {
        let src = &sources[i];
        if !str_eq(src.extension.as_str(), "sql") {
            return Err(ArnabError::UnknownModelType(src.extension.clone()));
        }
        let mut node = Node::new(NodeType::Sql, src.path.as_str(), src.id.as_str(),
            src.raw_src.as_str());
        node.materialize = lookup_materialize(models, src.id.as_str());
        let ghost nodes_before = nodes@;
        match find_node(&nodes, src.id.as_str()) {
            Some(k) => {
                nodes.set(k, node);
                proof {
                    assert forall|m: int| 0 <= m < nodes@.len() implies source_backed(
                        #[trigger] nodes@[m], sources@.take(i + 1), *models) by {
                        if m == k {
                            assert(sources@.take(i + 1)[i as int] == sources@[i as int]);
                            assert(last_with_id(sources@.take(i + 1), i as int));
                        } else {
                            assert(source_backed(nodes_before[m], sources@.take(i as int),
                                *models));
                            let k0 = choose|k0: int| last_with_id(sources@.take(i as int), k0)
                                && (#[trigger] sources@.take(i as int)[k0]).id@ == nodes_before[
                                m].id@ && sources@.take(i as int)[k0].path@ == nodes_before[
                                m].path@ && sources@.take(i as int)[k0].raw_src@
                                == nodes_before[m].raw_src@;
                            assert(sources@.take(i + 1)[k0] == sources@[k0]);
                            assert(last_with_id(sources@.take(i + 1), k0)) by {
                                assert forall|j: int| k0 < j < i + 1 implies (
                                    #[trigger] sources@.take(i + 1)[j]).id@ != sources@.take(i
                                    + 1)[k0].id@ by {
                                    if j < i {
                                        assert(sources@.take(i as int)[j].id@ != sources@.take(
                                            i as int)[k0].id@);
                                    } else {
                                        assert(nodes_before[k as int].id@ == sources@[
                                            i as int].id@);
                                        assert(nodes_before[m].id@ != nodes_before[
                                            k as int].id@);
                                    }
                                };
                            };
                        }
                    };
                    assert forall|m: int| 0 <= m < i + 1 implies ids_set(nodes@).contains((
                        #[trigger] sources@[m]).id@) by {
                        if m < i {
                            let w = choose|w: int| 0 <= w < nodes_before.len() && nodes_before[
                                w].id@ == sources@[m].id@;
                            assert(nodes@[w].id@ == sources@[m].id@);
                        } else {
                            assert(nodes@[k as int].id@ == sources@[i as int].id@);
                        }
                    };
                }
            },
            None => {
                nodes.push(node);
                proof {
                    assert forall|m: int| 0 <= m < nodes@.len() implies source_backed(
                        #[trigger] nodes@[m], sources@.take(i + 1), *models) by {
                        if m == nodes_before.len() {
                            assert(sources@.take(i + 1)[i as int] == sources@[i as int]);
                            assert(last_with_id(sources@.take(i + 1), i as int));
                        } else {
                            assert(source_backed(nodes_before[m], sources@.take(i as int),
                                *models));
                            let k0 = choose|k0: int| last_with_id(sources@.take(i as int), k0)
                                && (#[trigger] sources@.take(i as int)[k0]).id@ == nodes_before[
                                m].id@ && sources@.take(i as int)[k0].path@ == nodes_before[
                                m].path@ && sources@.take(i as int)[k0].raw_src@
                                == nodes_before[m].raw_src@;
                            assert(sources@.take(i + 1)[k0] == sources@[k0]);
                            assert(last_with_id(sources@.take(i + 1), k0)) by {
                                assert forall|j: int| k0 < j < i + 1 implies (
                                    #[trigger] sources@.take(i + 1)[j]).id@ != sources@.take(i
                                    + 1)[k0].id@ by {
                                    if j < i {
                                        assert(sources@.take(i as int)[j].id@ != sources@.take(
                                            i as int)[k0].id@);
                                    } else {
                                        assert(nodes_before[m].id@ != sources@[i as int].id@);
                                    }
                                };
                            };
                        }
                    };
                    assert forall|m: int| 0 <= m < i + 1 implies ids_set(nodes@).contains((
                        #[trigger] sources@[m]).id@) by {
                        if m < i {
                            let w = choose|w: int| 0 <= w < nodes_before.len() && nodes_before[
                                w].id@ == sources@[m].id@;
                            assert(nodes@[w].id@ == sources@[m].id@);
                        } else {
                            assert(nodes@[nodes@.len() - 1].id@ == sources@[i as int].id@);
                        }
                    };
                }
            },
        }
        i = i + 1;
    }
    proof {
        assert(sources@.take(sources@.len() as int) =~= sources@);
        assert forall|k: int| 0 <= k < nodes@.len() implies source_backed(#[trigger] nodes@[k],
            sources@, *models) by {
            assert(source_backed(nodes@[k], sources@.take(sources@.len() as int), *models));
        };
        assert forall|k: int| last_with_id(sources@, k) implies exists|m: int| 0 <= m
            < nodes@.len() && (#[trigger] nodes@[m]).id@ == sources@[k].id@ && nodes@[m].path@
            == sources@[k].path@ && nodes@[m].raw_src@ == sources@[k].raw_src@ by {
            assert(ids_set(nodes@).contains(sources@[k].id@));
            let m = choose|m: int| 0 <= m < nodes@.len() && nodes@[m].id@ == sources@[k].id@;
            assert(source_backed(nodes@[m], sources@, *models));
            let k0 = choose|k0: int| last_with_id(sources@, k0) && (#[trigger] sources@[
                k0]).id@ == nodes@[m].id@ && sources@[k0].path@ == nodes@[m].path@ && sources@[
                k0].raw_src@ == nodes@[m].raw_src@;
            lemma_last_unique(sources@, k, k0);
            assert(nodes@[m].path@ == sources@[k].path@);
        };
    }
    Ok(nodes)
}

/// Whether a rendered node keeps its source node's identity and settings,
/// carries the rendered text of its assembled template, and depends exactly
/// on the referenced names that are registered models.
pub open spec fn rendered_from(node: Node, src: Node, macros: Seq<Seq<char>>, universe: Set<
    Seq<char>>) -> bool {
    &&& node.id@ == src.id@
    &&& node.path@ == src.path@
    &&& node.raw_src@ == src.raw_src@
    &&& node.nexts@ == src.nexts@
    &&& node.materialize == src.materialize
    &&& node.rendered_src@ == rendered_template(template_source(macros, src.raw_src@))
    &&& no_dup_names(node.prevs@)
    &&& names_set(node.prevs@) == statements_refs(parsed_statements(
        node.rendered_src@)).intersect(universe)
}

/// Whether the engine renders the template assembled from these macro
/// bodies and this raw text, and the parser accepts the rendered result.
pub open spec fn source_renders(raw: Seq<char>, macros: Seq<Seq<char>>) -> bool {
    let template = template_source(macros, raw);
    render_ok(template) && parse_ok(rendered_template(template))
}

/// Renders every node and populates its dependency set. This succeeds
/// exactly when every node's assembled template renders and its rendered
/// text parses; a failure aborts the run.
fn render_all(nodes: Vec<Node>, macros: &Vec<String>, names: &Vec<String>) -> (r: Result<Vec<
    Node>, ArnabError>)
    ensures
        r is Ok <==> (forall|i: int| 0 <= i < nodes@.len() ==> source_renders((#[trigger] nodes@[
            i]).raw_src@, views_of(macros@))),
        r matches Err(e) ==> e is Error,
        r matches Ok(out) ==> out@.len() == nodes@.len() && (forall|i: int| 0 <= i < out@.len()
            ==> rendered_from(#[trigger] out@[i], nodes@[i], views_of(macros@), names_set(
            names@))),
{
    let ghost orig = nodes@;
    let mut remaining = nodes;
    let mut out: Vec<Node> = Vec::new();
    while remaining.len() > 0
        invariant
            orig == nodes@,
            out@.len() + remaining@.len() == orig.len(),
            remaining@ =~= orig.skip(out@.len() as int),
            forall|i: int| 0 <= i < out@.len() ==> rendered_from(#[trigger] out@[i], orig[i],
                views_of(macros@), names_set(names@)),
            forall|i: int| 0 <= i < out@.len() ==> source_renders((#[trigger] orig[i]).raw_src@,
                views_of(macros@)),
        decreases remaining@.len(),
    {
        let mut node = remaining.remove(0);
        assert(node == orig[out@.len() as int]);
        match node.render_and_populate_refs(macros, names) {
            Ok(()) => (),
            Err(e) => {
                proof {
                    assert(!source_renders(orig[out@.len() as int].raw_src@, views_of(
                        macros@)));
                    assert(out@.len() < orig.len());
                    assert(nodes@[out@.len() as int] == orig[out@.len() as int]);
                }
                return Err(e);
            },
        }
        out.push(node);
        proof {
            assert(remaining@ =~= orig.skip(out@.len() as int));
        }
    }
    Ok(out)
}

/// The identifiers of the models that depend on the given one.
pub open spec fn dependents_set(nodes: Seq<Node>, id: Seq<char>) -> Set<Seq<char>> {
    Set::new(|x: Seq<char>| exists|j: int| 0 <= j < nodes.len() && (#[trigger] nodes[j]).id@
        == x && names_set(nodes[j].prevs@).contains(id))
}

spec fn dependents_upto(nodes: Seq<Node>, id: Seq<char>, n: int) -> Set<Seq<char>> {
    Set::new(|x: Seq<char>| exists|j: int| 0 <= j < n && (#[trigger] nodes[j]).id@ == x
        && names_set(nodes[j].prevs@).contains(id))
}

/// Collects the identifiers of the models whose dependency set holds `id`.
fn collect_dependents(nodes: &Vec<Node>, id: &str) -> (r: Vec<String>)
    requires
        unique_ids(nodes@),
    ensures
        names_set(r@) == dependents_set(nodes@, id@),
{
    let mut found: Vec<String> = Vec::new();
    let mut j: usize = 0;
    proof {
        assert(names_set(found@) =~= dependents_upto(nodes@, id@, 0));
    }
    while j < nodes.len()
        invariant
            0 <= j <= nodes@.len(),
            unique_ids(nodes@),
            names_set(found@) == dependents_upto(nodes@, id@, j as int),
        decreases nodes@.len() - j,
    {
        if contains_name(&nodes[j].prevs, id) {
            let ghost oldf = found@;
            found.push(nodes[j].id.clone());
            proof {
                assert forall|x: Seq<char>| names_set(found@).contains(x) implies
                    dependents_upto(nodes@, id@, j + 1).contains(x) by {
                    let k = choose|k: int| 0 <= k < found@.len() && found@[k]@ == x;
                    if k < oldf.len() {
                        assert(oldf[k]@ == x);
                        assert(names_set(oldf).contains(x));
                    } else {
                        assert(nodes@[j as int].id@ == x);
                    }
                };
                assert forall|x: Seq<char>| dependents_upto(nodes@, id@, j + 1).contains(
                    x) implies names_set(found@).contains(x) by {
                    let j2 = choose|j2: int| 0 <= j2 < j + 1 && (#[trigger] nodes@[j2]).id@ == x
                        && names_set(nodes@[j2].prevs@).contains(id@);
                    if j2 < j {
                        assert(dependents_upto(nodes@, id@, j as int).contains(x));
                        assert(names_set(oldf).contains(x));
                        let k = choose|k: int| 0 <= k < oldf.len() && oldf[k]@ == x;
                        assert(found@[k]@ == x);
                    } else {
                        assert(found@[found@.len() - 1]@ == x);
                    }
                };
                assert(names_set(found@) =~= dependents_upto(nodes@, id@, j + 1));
            }
        } else {
            proof {
                assert forall|x: Seq<char>| dependents_upto(nodes@, id@, j + 1).contains(
                    x) implies dependents_upto(nodes@, id@, j as int).contains(x) by {
                    let j2 = choose|j2: int| 0 <= j2 < j + 1 && (#[trigger] nodes@[j2]).id@ == x
                        && names_set(nodes@[j2].prevs@).contains(id@);
                    assert(j2 < j);
                };
                assert forall|x: Seq<char>| dependents_upto(nodes@, id@, j as int).contains(
                    x) implies dependents_upto(nodes@, id@, j + 1).contains(x) by {
                    let j2 = choose|j2: int| 0 <= j2 < j && (#[trigger] nodes@[j2]).id@ == x
                        && names_set(nodes@[j2].prevs@).contains(id@);
                };
                assert(names_set(found@) =~= dependents_upto(nodes@, id@, j + 1));
            }
        }
        j = j + 1;
    }
    proof {
        assert(names_set(found@) =~= dependents_set(nodes@, id@));
    }
    found
}

/// Whether two nodes agree on everything but their dependent edges.
pub open spec fn same_but_nexts(a: Node, b: Node) -> bool {
    &&& a.id@ == b.id@
    &&& a.path@ == b.path@
    &&& a.raw_src@ == b.raw_src@
    &&& a.rendered_src@ == b.rendered_src@
    &&& a.prevs@ == b.prevs@
    &&& a.materialize == b.materialize
}

/// Populates every node's dependent set as the inverse of the dependency
/// sets across the whole registry.
fn link_graph(nodes: Vec<Node>) -> (out: Vec<Node>)
    requires
        unique_ids(nodes@),
    ensures
        out@.len() == nodes@.len(),
        forall|i: int| 0 <= i < out@.len() ==> same_but_nexts(#[trigger] out@[i], nodes@[i]),
        unique_ids(out@),
        forall|i: int| 0 <= i < out@.len() ==> names_set((#[trigger] out@[i]).nexts@)
            == dependents_set(nodes@, out@[i].id@),
{
    let n = nodes.len();
    let mut all_nexts: Vec<Vec<String>> = Vec::new();
    let mut i: usize = 0;
    while i < n
        invariant
            0 <= i <= n,
            n == nodes@.len(),
            unique_ids(nodes@),
            all_nexts@.len() == i,
            forall|k: int| 0 <= k < i ==> names_set((#[trigger] all_nexts@[k])@)
                == dependents_set(nodes@, nodes@[k].id@),
        decreases n - i,
    {
        let deps = collect_dependents(&nodes, nodes[i].id.as_str());
        all_nexts.push(deps);
        i = i + 1;
    }
    let ghost orig = nodes@;
    let mut remaining = nodes;
    let mut rest_nexts = all_nexts;
    let mut out: Vec<Node> = Vec::new();
    while remaining.len() > 0
        invariant
            out@.len() + remaining@.len() == orig.len(),
            rest_nexts@.len() == remaining@.len(),
            remaining@ =~= orig.skip(out@.len() as int),
            forall|k: int| 0 <= k < rest_nexts@.len() ==> names_set((#[trigger] rest_nexts@[
                k])@) == dependents_set(orig, orig[k + out@.len()].id@),
            forall|k: int| 0 <= k < out@.len() ==> same_but_nexts(#[trigger] out@[k], orig[k]),
            forall|k: int| 0 <= k < out@.len() ==> names_set((#[trigger] out@[k]).nexts@)
                == dependents_set(orig, orig[k].id@),
        decreases remaining@.len(),
    {
        let mut node = remaining.remove(0);
        let nexts = rest_nexts.remove(0);
        assert(node == orig[out@.len() as int]);
        node.nexts = nexts;
        out.push(node);
        proof {
            assert(remaining@ =~= orig.skip(out@.len() as int));
        }
    }
    proof {
        assert forall|i2: int, j2: int| 0 <= i2 < j2 < out@.len() implies out@[i2].id@ != out@[
            j2].id@ by {
            assert(same_but_nexts(out@[i2], orig[i2]));
            assert(same_but_nexts(out@[j2], orig[j2]));
        };
        assert forall|k: int| 0 <= k < out@.len() implies names_set((#[trigger] out@[
            k]).nexts@) == dependents_set(orig, out@[k].id@) by {
            assert(same_but_nexts(out@[k], orig[k]));
        };
    }
    out
}

/// The dependency adjacency: for each node, the indices of the nodes its
/// dependency set names.
fn deps_indices(nodes: &Vec<Node>) -> (adj: Vec<Vec<usize>>)
    requires
        unique_ids(nodes@),
    ensures
        adj@.len() == nodes@.len(),
        crate::schedule::adj_wf(adj@),
        forall|i: int, j: int| 0 <= i < nodes@.len() && 0 <= j < nodes@.len() ==> ((
            #[trigger] adj@[i]@.contains(j as usize)) <==> names_set(nodes@[
            i].prevs@).contains(nodes@[j].id@)),
{
    let n = nodes.len();
    let mut adj: Vec<Vec<usize>> = Vec::new();
    let mut i: usize = 0;
    while i < n
        invariant
            0 <= i <= n,
            n == nodes@.len(),
            unique_ids(nodes@),
            adj@.len() == i,
            forall|i2: int, k: int| 0 <= i2 < i && 0 <= k < adj@[i2]@.len() ==> (#[trigger] adj@[
                i2]@[k]) < nodes@.len(),
            forall|i2: int, j: int| 0 <= i2 < i && 0 <= j < nodes@.len() ==> ((#[trigger] adj@[
                i2]@.contains(j as usize)) <==> names_set(nodes@[i2].prevs@).contains(nodes@[
                j].id@)),
        decreases n - i,
    {
        let prevs = &nodes[i].prevs;
        let mut row: Vec<usize> = Vec::new();
        let mut d: usize = 0;
        while d < prevs.len()
            invariant
                0 <= d <= prevs@.len(),
                n == nodes@.len(),
                unique_ids(nodes@),
                forall|k: int| 0 <= k < row@.len() ==> (#[trigger] row@[k]) < nodes@.len(),
                forall|j: int| 0 <= j < nodes@.len() ==> ((#[trigger] row@.contains(j as usize))
                    <==> exists|d2: int| 0 <= d2 < d && (#[trigger] prevs@[d2])@ == nodes@[
                    j].id@),
            decreases prevs@.len() - d,
        {
            let ghost oldrow = row@;
            match find_node(nodes, prevs[d].as_str()) {
                Some(k) => {
                    row.push(k);
                    proof {
                        assert forall|j: int| 0 <= j < nodes@.len() implies ((
                            #[trigger] row@.contains(j as usize)) <==> exists|d2: int|
                            0 <= d2 < d + 1 && (#[trigger] prevs@[d2])@ == nodes@[j].id@) by {
                            if row@.contains(j as usize) {
                                let w = choose|w: int| 0 <= w < row@.len() && row@[w]
                                    == j as usize;
                                if w < oldrow.len() {
                                    assert(oldrow[w] == j as usize);
                                    assert(oldrow.contains(j as usize));
                                    let d2 = choose|d2: int| 0 <= d2 < d && (#[trigger] prevs@[
                                        d2])@ == nodes@[j].id@;
                                } else {
                                    assert(row@[w] == k);
                                    assert(nodes@[k as int].id@ == prevs@[d as int]@);
                                    assert(unique_ids(nodes@));
                                    assert(nodes@[j].id@ == nodes@[k as int].id@);
                                    assert(prevs@[d as int]@ == nodes@[j].id@);
                                }
                            }
                            if exists|d2: int| 0 <= d2 < d + 1 && (#[trigger] prevs@[d2])@
                                == nodes@[j].id@ {
                                let d2 = choose|d2: int| 0 <= d2 < d + 1 && (#[trigger] prevs@[
                                    d2])@ == nodes@[j].id@;
                                if d2 < d {
                                    assert(oldrow.contains(j as usize));
                                    let w = choose|w: int| 0 <= w < oldrow.len() && oldrow[w]
                                        == j as usize;
                                    assert(row@[w] == j as usize);
                                } else {
                                    assert(nodes@[k as int].id@ == prevs@[d as int]@);
                                    assert(nodes@[j].id@ == nodes@[k as int].id@);
                                    if j != k {
                                        assert(false);
                                    }
                                    assert(row@[row@.len() - 1] == j as usize);
                                }
                            }
                        };
                    }
                },
                None => {
                    proof {
                        assert forall|j: int| 0 <= j < nodes@.len() implies ((
                            #[trigger] row@.contains(j as usize)) <==> exists|d2: int|
                            0 <= d2 < d + 1 && (#[trigger] prevs@[d2])@ == nodes@[j].id@) by {
                            if exists|d2: int| 0 <= d2 < d + 1 && (#[trigger] prevs@[d2])@
                                == nodes@[j].id@ {
                                let d2 = choose|d2: int| 0 <= d2 < d + 1 && (#[trigger] prevs@[
                                    d2])@ == nodes@[j].id@;
                                assert(d2 < d);
                            }
                        };
                    }
                },
            }
            d = d + 1;
        }
        adj.push(row);
        i = i + 1;
    }
    proof {
        assert forall|i2: int, k: int| 0 <= i2 < adj@.len() && 0 <= k < adj@[i2]@.len() implies (
            #[trigger] adj@[i2]@[k]) < adj@.len() by {
            assert(adj@[i2]@.contains(adj@[i2]@[k]));
        };
    }
    adj
}

/// Whether a schedule of identifiers respects the registry's dependency
/// edges: a model's dependency is always scheduled strictly before it.
pub open spec fn ordering_respected(nodes: Seq<Node>, order: Seq<String>) -> bool {
    forall|i: int, j: int, ti: int, tj: int|
        #![trigger names_set(nodes[j].prevs@).contains(nodes[i].id@), order[ti], order[tj]]
        0 <= i < nodes.len() && 0 <= j < nodes.len() && 0 <= ti < order.len() && 0 <= tj
            < order.len() && names_set(nodes[j].prevs@).contains(nodes[i].id@) && order[ti]@
            == nodes[i].id@ && order[tj]@ == nodes[j].id@ ==> ti < tj
}

proof fn lemma_ordering_from_indices(nodes: Seq<Node>, adj: Seq<Vec<usize>>, order_idx: Seq<
    usize>, order: Seq<String>)
    requires
        unique_ids(nodes),
        adj.len() == nodes.len(),
        forall|i: int, j: int| 0 <= i < nodes.len() && 0 <= j < nodes.len() ==> ((#[trigger] adj[
            i]@.contains(j as usize)) <==> names_set(nodes[i].prevs@).contains(nodes[j].id@)),
        order_idx.len() == order.len(),
        order_idx.no_duplicates(),
        forall|t: int| 0 <= t < order_idx.len() ==> (#[trigger] order_idx[t]) < nodes.len(),
        forall|t: int| 0 <= t < order.len() ==> (#[trigger] order[t])@ == nodes[order_idx[
            t] as int].id@,
        forall|t: int, k: int| 0 <= t < order_idx.len() && 0 <= k < adj[order_idx[
            t] as int]@.len() ==> order_idx.take(t).contains(#[trigger] adj[order_idx[
            t] as int]@[k]),
    ensures
        ordering_respected(nodes, order),
{
    assert forall|i: int, j: int, ti: int, tj: int|
        #![trigger names_set(nodes[j].prevs@).contains(nodes[i].id@), order[ti], order[tj]]
        0 <= i < nodes.len() && 0 <= j < nodes.len() && 0 <= ti < order.len() && 0 <= tj
            < order.len() && names_set(nodes[j].prevs@).contains(nodes[i].id@) && order[ti]@
            == nodes[i].id@ && order[tj]@ == nodes[j].id@ implies ti < tj by {
        assert(nodes[order_idx[ti] as int].id@ == nodes[i].id@);
        assert(order_idx[ti] == i as usize) by {
            if order_idx[ti] != i as usize {
                assert(nodes[order_idx[ti] as int].id@ != nodes[i].id@);
            }
        };
        assert(nodes[order_idx[tj] as int].id@ == nodes[j].id@);
        assert(order_idx[tj] == j as usize) by {
            if order_idx[tj] != j as usize {
                assert(nodes[order_idx[tj] as int].id@ != nodes[j].id@);
            }
        };
        assert(adj[j]@.contains(i as usize));
        let k = choose|k: int| 0 <= k < adj[j]@.len() && adj[j]@[k] == i as usize;
        assert(order_idx.take(tj).contains(adj[order_idx[tj] as int]@[k]));
        let u = choose|u: int| 0 <= u < tj && order_idx.take(tj)[u] == i as usize;
        assert(order_idx[u] == order_idx[ti]);
        assert(u == ti);
    };
}

/// The schedule's identifiers with those among the given bad set left out.
pub open spec fn filter_not_in(names: Seq<String>, bad: Set<Seq<char>>) -> Seq<Seq<char>>
    decreases names.len(),
{
    if names.len() == 0 {
        Seq::empty()
    } else {
        let rest = filter_not_in(names.drop_last(), bad);
        if bad.contains(names.last()@) {
            rest
        } else {
            rest.push(names.last()@)
        }
    }
}

proof fn lemma_filter_not_in_noop(names: Seq<String>, bad: Set<Seq<char>>)
    requires
        forall|t: int| 0 <= t < names.len() ==> !bad.contains((#[trigger] names[t])@),
    ensures
        filter_not_in(names, bad) == views_of(names),
    decreases names.len(),
{
    if names.len() == 0 {
        assert(filter_not_in(names, bad) =~= views_of(names));
    } else {
        lemma_filter_not_in_noop(names.drop_last(), bad);
        assert(views_of(names.drop_last()) =~= views_of(names).drop_last());
        assert(filter_not_in(names, bad) =~= views_of(names));
    }
}

/// Keeps the schedule entries whose identifier is not among the unresolved
/// ones; unresolved identifiers were never registry entries, so this is a
/// defensive pass.
fn filter_valid(order: Vec<String>, invalid: &Vec<String>) -> (r: Vec<String>)
    ensures
        views_of(r@) == filter_not_in(order@, names_set(invalid@)),
{
    let mut kept: Vec<String> = Vec::new();
    let ghost orderv = order@;
    let mut i: usize = 0;
    while i < order.len()
        invariant
            0 <= i <= order@.len(),
            order@ == orderv,
            views_of(kept@) =~= filter_not_in(orderv.take(i as int), names_set(invalid@)),
        decreases order@.len() - i,
    {
        proof {
            assert(orderv.take(i + 1).drop_last() =~= orderv.take(i as int));
            assert(orderv.take(i + 1).last() == orderv[i as int]);
        }
        if !contains_name(invalid, order[i].as_str()) {
            kept.push(order[i].clone());
            assert(views_of(kept@) =~= views_of(kept@.drop_last()).push(orderv[i as int]@));
        }
        i = i + 1;
    }
    proof {
        assert(orderv.take(orderv.len() as int) =~= orderv);
    }
    kept
}

/// Detects dependencies on identifiers that no registry entry carries; each
/// one is recorded and a warning line names it together with the model that
/// required it.
fn collect_invalid(nodes: &Vec<Node>) -> (r: (Vec<String>, Vec<String>))
    ensures
        forall|x: Seq<char>| names_set(r.0@).contains(x) ==> !ids_set(nodes@).contains(x),
{
    let mut invalid: Vec<String> = Vec::new();
    let mut warnings: Vec<String> = Vec::new();
    let mut j: usize = 0;
    while j < nodes.len()
        invariant
            0 <= j <= nodes@.len(),
            forall|x: Seq<char>| names_set(invalid@).contains(x) ==> !ids_set(
                nodes@).contains(x),
        decreases nodes@.len() - j,
    {
        let n_prevs = nodes[j].prevs.len();
        let mut d: usize = 0;
        while d < n_prevs
            invariant
                0 <= j < nodes@.len(),
                n_prevs == nodes@[j as int].prevs@.len(),
                0 <= d <= n_prevs,
                forall|x: Seq<char>| names_set(invalid@).contains(x) ==> !ids_set(
                    nodes@).contains(x),
            decreases n_prevs - d,
        {
            let p = nodes[j].prevs[d].clone();
            match find_node(nodes, p.as_str()) {
                Some(_) => (),
                None => {
                    let ghost oldi = invalid@;
                    invalid.push(p.clone());
                    proof {
                        assert forall|x: Seq<char>| names_set(invalid@).contains(x) implies
                            !ids_set(nodes@).contains(x) by {
                            let k = choose|k: int| 0 <= k < invalid@.len() && invalid@[k]@ == x;
                            if k < oldi.len() {
                                assert(oldi[k]@ == x);
                                assert(names_set(oldi).contains(x));
                            } else {
                                assert(x == p@);
                                if ids_set(nodes@).contains(x) {
                                    let w = choose|w: int| 0 <= w < nodes@.len() && nodes@[
                                        w].id@ == x;
                                }
                            }
                        };
                    }
                    let mut w = String::new();
                    w.append("WARNING: Model `");
                    w.append(p.as_str());
                    w.append("` required by `");
                    w.append(nodes[j].id.as_str());
                    w.append("` not found");
                    warnings.push(w);
                },
            }
            d = d + 1;
        }
        j = j + 1;
    }
    (invalid, warnings)
}

/// The indices of the terminal models: those no other model depends on.
fn terminal_indices(nodes: &Vec<Node>) -> (r: Vec<usize>)
    ensures
        forall|t: int| 0 <= t < r@.len() ==> (#[trigger] r@[t]) < nodes@.len(),
{
    let mut terminals: Vec<usize> = Vec::new();
    let mut i: usize = 0;
    while i < nodes.len()
        invariant
            0 <= i <= nodes@.len(),
            forall|t: int| 0 <= t < terminals@.len() ==> (#[trigger] terminals@[t])
                < nodes@.len(),
        decreases nodes@.len() - i,
    {
        if nodes[i].nexts.len() == 0 {
            terminals.push(i);
        }
        i = i + 1;
    }
    terminals
}

/// The identifiers of the scheduled nodes, in schedule order.
fn ids_for(nodes: &Vec<Node>, order_idx: &Vec<usize>) -> (r: Vec<String>)
    requires
        forall|t: int| 0 <= t < order_idx@.len() ==> (#[trigger] order_idx@[t]) < nodes@.len(),
    ensures
        r@.len() == order_idx@.len(),
        forall|t: int| 0 <= t < r@.len() ==> (#[trigger] r@[t])@ == nodes@[order_idx@[
            t] as int].id@,
{
    let mut out: Vec<String> = Vec::new();
    let mut t: usize = 0;
    while t < order_idx.len()
        invariant
            forall|u: int| 0 <= u < order_idx@.len() ==> (#[trigger] order_idx@[u])
                < nodes@.len(),
            0 <= t <= order_idx@.len(),
            out@.len() == t,
            forall|u: int| 0 <= u < t ==> (#[trigger] out@[u])@ == nodes@[order_idx@[
                u] as int].id@,
        decreases order_idx@.len() - t,
    {
        out.push(nodes[order_idx[t]].id.clone());
        t = t + 1;
    }
    out
}

/// Plans every scheduled model's statements, in schedule order.
fn build_plans(nodes: &Vec<Node>, order_idx: &Vec<usize>) -> (r: Vec<ModelPlan>)
    requires
        forall|t: int| 0 <= t < order_idx@.len() ==> (#[trigger] order_idx@[t]) < nodes@.len(),
    ensures
        r@.len() == order_idx@.len(),
        forall|t: int|
            0 <= t < r@.len() ==> ({
                let node = nodes@[order_idx@[t] as int];
                &&& (#[trigger] r@[t]).id@ == node.id@
                &&& r@[t].path@ == node.path@
                &&& plan_result_ok(node.id@, node.rendered_src@, opt_view(node.materialize), r@[
                    t].plan)
            }),
{
    let mut plans: Vec<ModelPlan> = Vec::new();
    let mut t: usize = 0;
    while t < order_idx.len()
        invariant
            forall|u: int| 0 <= u < order_idx@.len() ==> (#[trigger] order_idx@[u])
                < nodes@.len(),
            0 <= t <= order_idx@.len(),
            plans@.len() == t,
            forall|u: int|
                0 <= u < t ==> ({
                    let node = nodes@[order_idx@[u] as int];
                    &&& (#[trigger] plans@[u]).id@ == node.id@
                    &&& plans@[u].path@ == node.path@
                    &&& plan_result_ok(node.id@, node.rendered_src@, opt_view(node.materialize),
                        plans@[u].plan)
                }),
        decreases order_idx@.len() - t,
    {
        let node = &nodes[order_idx[t]];
        let plan = node.plan_sql();
        plans.push(ModelPlan { id: node.id.clone(), path: node.path.clone(), plan });
        t = t + 1;
    }
    plans
}

/// Whether every discovered source declares the one accepted type.
pub open spec fn all_sources_sql(sources: Seq<ModelSource>) -> bool {
    forall|k: int| 0 <= k < sources.len() ==> (#[trigger] sources[k]).extension@ == "sql"@
}

/// Whether every model the registry will keep — the last source of each
/// identifier — renders and parses.
pub open spec fn sources_render(sources: Seq<ModelSource>, macros: Seq<Seq<char>>) -> bool {
    forall|k: int| #[trigger] last_with_id(sources, k) ==> source_renders(sources[k].raw_src@,
        macros)
}

/// The set of identifiers the discovered sources carry.
pub open spec fn source_ids(sources: Seq<ModelSource>) -> Set<Seq<char>> {
    Set::new(|x: Seq<char>| exists|k: int| 0 <= k < sources.len() && (#[trigger] sources[k]).id@
        == x)
}

/// The registered models one source's rendered text depends on.
pub open spec fn source_refs(src: ModelSource, sources: Seq<ModelSource>, macros: Seq<Seq<
    char>>) -> Set<Seq<char>> {
    statements_refs(parsed_statements(rendered_template(template_source(macros,
        src.raw_src@)))).intersect(source_ids(sources))
}

/// A non-empty sequence of kept sources, each depending on the next, the
/// last depending on the first.
pub open spec fn is_dependency_cycle(sources: Seq<ModelSource>, macros: Seq<Seq<char>>, c: Seq<
    int>) -> bool {
    &&& c.len() >= 1
    &&& forall|t: int| 0 <= t < c.len() ==> last_with_id(sources, #[trigger] c[t])
    &&& forall|t: int| 0 <= t < c.len() - 1 ==> source_refs(sources[#[trigger] c[t]], sources,
        macros).contains(sources[c[t + 1]].id@)
    &&& source_refs(sources[c.last()], sources, macros).contains(sources[c.first()].id@)
}

/// Whether the discovered sources' dependencies close on themselves.
pub open spec fn has_dependency_cycle(sources: Seq<ModelSource>, macros: Seq<Seq<char>>) -> bool {
    exists|c: Seq<int>| is_dependency_cycle(sources, macros, c)
}

/// Whether a node's identity and text come from the last source carrying
/// its identifier.
pub open spec fn node_from_kept_source(node: Node, sources: Seq<ModelSource>) -> bool {
    exists|k: int| #[trigger] last_with_id(sources, k) && sources[k].id@ == node.id@
        && sources[k].raw_src@ == node.raw_src@
}

/// A cycle among the dependency edges of the registry's adjacency lists is a
/// cycle among the kept sources' dependencies.
#[verifier::rlimit(100)]
#[verifier::spinoff_prover]
proof fn lemma_cycle_to_sources(nodes: Seq<Node>, sources: Seq<ModelSource>, macros: Seq<Seq<
    char>>, adj: Seq<Vec<usize>>)
    requires
        forall|i: int| 0 <= i < nodes.len() ==> node_from_kept_source(#[trigger] nodes[i],
            sources),
        forall|i: int| 0 <= i < nodes.len() ==> (#[trigger] nodes[i]).rendered_src@
            == rendered_template(template_source(macros, nodes[i].raw_src@)),
        forall|i: int| 0 <= i < nodes.len() ==> names_set((#[trigger] nodes[i]).prevs@)
            == statements_refs(parsed_statements(nodes[i].rendered_src@)).intersect(ids_set(
            nodes)),
        ids_set(nodes) == source_ids(sources),
        adj.len() == nodes.len(),
        forall|i: int, j: int| 0 <= i < nodes.len() && 0 <= j < nodes.len() ==> ((#[trigger] adj[
            i]@.contains(j as usize)) <==> names_set(nodes[i].prevs@).contains(nodes[j].id@)),
        crate::schedule::has_cycle(adj),
    ensures
        has_dependency_cycle(sources, macros),
{
    let c = choose|c: Seq<usize>| crate::schedule::is_cycle(adj, c);
    assert forall|t: int| 0 <= t < c.len() implies (#[trigger] c[t]) < nodes.len() by {
        if t < c.len() - 1 {
            assert(crate::schedule::edge(adj, c[t], c[t + 1]));
        } else {
            assert(c[t] == c.last());
            assert(crate::schedule::edge(adj, c.last(), c.first()));
        }
    };
    let csrc = Seq::new(c.len(), |t: int| choose|k: int| #[trigger] last_with_id(sources, k)
        && sources[k].id@ == nodes[c[t] as int].id@ && sources[k].raw_src@ == nodes[c[
        t] as int].raw_src@);
    assert forall|t: int| 0 <= t < c.len() implies last_with_id(sources, #[trigger] csrc[t])
        && nodes[c[t] as int].id@ == sources[csrc[t]].id@ && nodes[c[t] as int].raw_src@
        == sources[csrc[t]].raw_src@ by {
        assert(node_from_kept_source(nodes[c[t] as int], sources));
    };
    assert forall|ta: int, tb: int|
        0 <= ta < c.len() && 0 <= tb < c.len() && crate::schedule::edge(adj, c[ta], c[
        tb]) implies source_refs(sources[csrc[ta]], sources, macros).contains(sources[csrc[
        tb]].id@) by {
        assert(adj[c[ta] as int]@.contains(c[tb]));
        assert(((c[tb] as int) as usize) == c[tb]);
        assert(adj[c[ta] as int]@.contains(((c[tb] as int) as usize)));
        assert(names_set(nodes[c[ta] as int].prevs@).contains(nodes[c[tb] as int].id@));
        assert(names_set(nodes[c[ta] as int].prevs@) == statements_refs(parsed_statements(
            nodes[c[ta] as int].rendered_src@)).intersect(ids_set(nodes)));
        assert(nodes[c[ta] as int].rendered_src@ == rendered_template(template_source(macros,
            nodes[c[ta] as int].raw_src@)));
        assert(sources[csrc[ta]].raw_src@ == nodes[c[ta] as int].raw_src@);
        assert(sources[csrc[tb]].id@ == nodes[c[tb] as int].id@);
    };
    assert(is_dependency_cycle(sources, macros, csrc)) by {
        assert forall|t: int| 0 <= t < csrc.len() - 1 implies source_refs(sources[
            #[trigger] csrc[t]], sources, macros).contains(sources[csrc[t + 1]].id@) by {
            assert(crate::schedule::edge(adj, c[t], c[t + 1]));
        };
        assert(crate::schedule::edge(adj, c.last(), c.first()));
        assert(c[c.len() - 1] == c.last() && c[0] == c.first());
        assert(csrc.last() == csrc[c.len() - 1] && csrc.first() == csrc[0]);
    };
}

/// Whether one planned entry belongs to the registry node with this
/// identifier and carries exactly what planning owes that node.
pub open spec fn plan_for(mp: ModelPlan, nodes: Seq<Node>, id: Seq<char>) -> bool {
    &&& mp.id@ == id
    &&& exists|i: int| 0 <= i < nodes.len() && (#[trigger] nodes[i]).id@ == id && mp.path@
        == nodes[i].path@ && plan_result_ok(nodes[i].id@, nodes[i].rendered_src@, opt_view(
        nodes[i].materialize), mp.plan)
}

/// Everything a successful preparation promises: a registry of uniquely
/// named models backed by the sources and configuration, each rendered from
/// its assembled template and depending exactly on the referenced registered
/// names, a dependent graph that inverts the dependency sets, a schedule
/// that covers every model exactly once and puts every dependency before its
/// dependent, and one statement plan per scheduled model.
#[verifier::opaque]
pub open spec fn run_plan_ok(rp: RunPlan, sources: Seq<ModelSource>, models: Option<Vec<(
    String, ModelInfo)>>, macros: Seq<Seq<char>>) -> bool {
    let nodes = rp.nodes@;
    let universe = ids_set(nodes);
    &&& unique_ids(nodes)
    &&& forall|i: int| 0 <= i < nodes.len() ==> source_backed(#[trigger] nodes[i], sources,
        models)
    &&& forall|k: int| 0 <= k < sources.len() ==> universe.contains((#[trigger] sources[k]).id@)
    &&& forall|i: int| 0 <= i < nodes.len() ==> (#[trigger] nodes[i]).rendered_src@
        == rendered_template(template_source(macros, nodes[i].raw_src@))
    &&& forall|i: int| 0 <= i < nodes.len() ==> names_set((#[trigger] nodes[i]).prevs@)
        == statements_refs(parsed_statements(nodes[i].rendered_src@)).intersect(universe)
    &&& forall|i: int, j: int| 0 <= i < nodes.len() && 0 <= j < nodes.len() ==> (names_set((
        #[trigger] nodes[i]).nexts@).contains((#[trigger] nodes[j]).id@) <==> names_set(nodes[
        j].prevs@).contains(nodes[i].id@))
    &&& rp.order@.len() == nodes.len()
    &&& no_dup_names(rp.order@)
    &&& forall|t: int| 0 <= t < rp.order@.len() ==> universe.contains((#[trigger] rp.order@[
        t])@)
    &&& forall|i: int| 0 <= i < nodes.len() ==> names_set(rp.order@).contains((#[trigger] nodes[
        i]).id@)
    &&& ordering_respected(nodes, rp.order@)
    &&& rp.model_plans@.len() == rp.order@.len()
    &&& forall|t: int| 0 <= t < rp.model_plans@.len() ==> plan_for(#[trigger] rp.model_plans@[
        t], nodes, rp.order@[t]@)
    &&& forall|x: Seq<char>| names_set(rp.invalid_ids@).contains(x) ==> !universe.contains(x)
}

/// Decides a whole run before any statement executes: builds the registry
/// from the discovered sources, renders every model and extracts its
/// dependencies, wires the dependent graph, warns about unresolved
/// references, schedules every model after its dependencies, and plans each
/// model's statements in schedule order. This succeeds exactly when every
/// source declares the `sql` type, every kept model renders and parses, and
/// the dependencies are free of cycles; a failure of any of the three aborts
/// the run.
#[verifier::rlimit(100)]
#[verifier::spinoff_prover]
pub fn prepare_run(config: &Config, sources: &Vec<ModelSource>, macros: &Vec<String>) -> (r:
    Result<RunPlan, ArnabError>)
    ensures
        all_sources_sql(sources@) && sources_render(sources@, views_of(macros@))
            && !has_dependency_cycle(sources@, views_of(macros@)) ==> r is Ok,
        r is Ok ==> all_sources_sql(sources@) && sources_render(sources@, views_of(macros@)),
        r matches Ok(rp) ==> run_plan_ok(rp, sources@, config.models, views_of(macros@)),
        r matches Err(e) ==> (e matches ArnabError::UnknownModelType(t) ==> exists|k: int|
            0 <= k < sources@.len() && (#[trigger] sources@[k]).extension@ == t@ && t@
            != "sql"@),
{
    let ghost mv = views_of(macros@);
    let nodes0 = match build_registry(sources, &config.models) {
        Ok(v) => v,
        Err(e) => {
            proof {
                assert(!all_sources_sql(sources@)) by {
                    let tt = e->UnknownModelType_0;
                    let k = choose|k: int| 0 <= k < sources@.len() && (#[trigger] sources@[
                        k]).extension@ == tt@ && tt@ != "sql"@;
                    assert(sources@[k].extension@ != "sql"@);
                };
            }
            return Err(e);
        },
    };
    let ghost n0v = nodes0@;
    let mut names: Vec<String> = Vec::new();
    let mut i: usize = 0;
    while i < nodes0.len()
        invariant
            0 <= i <= nodes0@.len(),
            names@.len() == i,
            forall|k: int| 0 <= k < i ==> (#[trigger] names@[k])@ == nodes0@[k].id@,
        decreases nodes0@.len() - i,
    {
        names.push(nodes0[i].id.clone());
        i = i + 1;
    }
    proof {
        assert forall|x: Seq<char>| names_set(names@).contains(x) implies ids_set(
            nodes0@).contains(x) by {
            let k = choose|k: int| 0 <= k < names@.len() && names@[k]@ == x;
            assert(nodes0@[k].id@ == x);
        };
        assert forall|x: Seq<char>| ids_set(nodes0@).contains(x) implies names_set(
            names@).contains(x) by {
            let k = choose|k: int| 0 <= k < nodes0@.len() && nodes0@[k].id@ == x;
            assert(names@[k]@ == x);
        };
        assert(names_set(names@) =~= ids_set(nodes0@));
    }
    let ghost universe = ids_set(nodes0@);
    let nodes1 = match render_all(nodes0, macros, &names) {
        Ok(v) => v,
        Err(e) => {
            proof {
                assert(!sources_render(sources@, mv)) by {
                    let w = choose|w: int| 0 <= w < n0v.len() && !source_renders((
                        #[trigger] n0v[w]).raw_src@, mv);
                    assert(source_backed(n0v[w], sources@, config.models));
                    let k = choose|k: int| last_with_id(sources@, k) && (#[trigger] sources@[
                        k]).id@ == n0v[w].id@ && sources@[k].path@ == n0v[w].path@ && sources@[
                        k].raw_src@ == n0v[w].raw_src@;
                    assert(!source_renders(sources@[k].raw_src@, mv));
                };
            }
            return Err(e);
        },
    };
    proof {
        assert forall|i2: int, j2: int| 0 <= i2 < j2 < nodes1@.len() implies nodes1@[i2].id@
            != nodes1@[j2].id@ by {
            assert(rendered_from(nodes1@[i2], nodes0@[i2], views_of(macros@), universe));
            assert(rendered_from(nodes1@[j2], nodes0@[j2], views_of(macros@), universe));
        };
        assert forall|x: Seq<char>| ids_set(nodes1@).contains(x) implies ids_set(
            nodes0@).contains(x) by {
            let k = choose|k: int| 0 <= k < nodes1@.len() && nodes1@[k].id@ == x;
            assert(rendered_from(nodes1@[k], nodes0@[k], views_of(macros@), universe));
            assert(nodes0@[k].id@ == x);
        };
        assert forall|x: Seq<char>| ids_set(nodes0@).contains(x) implies ids_set(
            nodes1@).contains(x) by {
            let k = choose|k: int| 0 <= k < nodes0@.len() && nodes0@[k].id@ == x;
            assert(rendered_from(nodes1@[k], nodes0@[k], views_of(macros@), universe));
            assert(nodes1@[k].id@ == x);
        };
        assert(ids_set(nodes1@) =~= ids_set(nodes0@));
    }
    let ghost nodes0v = nodes1@;  // registry before linking, for field transfer
    let ghost pre_link = nodes1@;
    let nodes = link_graph(nodes1);
    proof {
        assert forall|x: Seq<char>| ids_set(nodes@).contains(x) implies ids_set(
            pre_link).contains(x) by {
            let k = choose|k: int| 0 <= k < nodes@.len() && nodes@[k].id@ == x;
            assert(same_but_nexts(nodes@[k], pre_link[k]));
            assert(pre_link[k].id@ == x);
        };
        assert forall|x: Seq<char>| ids_set(pre_link).contains(x) implies ids_set(
            nodes@).contains(x) by {
            let k = choose|k: int| 0 <= k < pre_link.len() && pre_link[k].id@ == x;
            assert(same_but_nexts(nodes@[k], pre_link[k]));
            assert(nodes@[k].id@ == x);
        };
        assert(ids_set(nodes@) =~= ids_set(pre_link));
        // the registry is backed by the sources and keeps its rendering
        assert forall|i2: int| 0 <= i2 < nodes@.len() implies source_backed(#[trigger] nodes@[
            i2], sources@, config.models) && nodes@[i2].rendered_src@ == rendered_template(
            template_source(mv, nodes@[i2].raw_src@)) && names_set(nodes@[i2].prevs@)
            == statements_refs(parsed_statements(nodes@[i2].rendered_src@)).intersect(ids_set(
            nodes@)) by {
            assert(same_but_nexts(nodes@[i2], pre_link[i2]));
            assert(rendered_from(pre_link[i2], nodes0v[i2], views_of(macros@), universe));
            assert(source_backed(n0v[i2], sources@, config.models));
        };
        // the identifiers are exactly the sources' identifiers
        assert forall|x: Seq<char>| ids_set(nodes@).contains(x) implies source_ids(
            sources@).contains(x) by {
            let m = choose|m: int| 0 <= m < nodes@.len() && nodes@[m].id@ == x;
            assert(source_backed(nodes@[m], sources@, config.models));
            let k = choose|k: int| last_with_id(sources@, k) && (#[trigger] sources@[k]).id@
                == nodes@[m].id@ && sources@[k].path@ == nodes@[m].path@ && sources@[
                k].raw_src@ == nodes@[m].raw_src@;
            assert(sources@[k].id@ == x);
        };
        assert forall|x: Seq<char>| source_ids(sources@).contains(x) implies ids_set(
            nodes@).contains(x) by {
            let k = choose|k: int| 0 <= k < sources@.len() && (#[trigger] sources@[k]).id@ == x;
            assert(ids_set(n0v).contains(sources@[k].id@));
        };
        assert(ids_set(nodes@) =~= source_ids(sources@));
        // node-to-kept-source correspondence
        assert forall|i2: int| 0 <= i2 < nodes@.len() implies node_from_kept_source(
            #[trigger] nodes@[i2], sources@) by {
            assert(source_backed(nodes@[i2], sources@, config.models));
            let k = choose|k: int| last_with_id(sources@, k) && (#[trigger] sources@[k]).id@
                == nodes@[i2].id@ && sources@[k].path@ == nodes@[i2].path@ && sources@[
                k].raw_src@ == nodes@[i2].raw_src@;
            assert(last_with_id(sources@, k) && sources@[k].id@ == nodes@[i2].id@ && sources@[
                k].raw_src@ == nodes@[i2].raw_src@);
        };
        // the rendering and dependency relations, node by node
        assert forall|i2: int| 0 <= i2 < nodes@.len() implies (#[trigger] nodes@[
            i2]).rendered_src@ == rendered_template(template_source(mv, nodes@[i2].raw_src@))
            && names_set(nodes@[i2].prevs@) == statements_refs(parsed_statements(nodes@[
            i2].rendered_src@)).intersect(ids_set(nodes@)) by {
            assert(same_but_nexts(nodes@[i2], pre_link[i2]));
            assert(rendered_from(pre_link[i2], nodes0v[i2], views_of(macros@), universe));
        };
    }
    let (invalid_ids, warnings) = collect_invalid(&nodes);
    let adj = deps_indices(&nodes);
    let terminals = terminal_indices(&nodes);
    let order_idx = match crate::schedule::schedule_indices(&adj, &terminals) {
        Ok(o) => o,
        Err(()) => {
            proof {
                lemma_cycle_to_sources(nodes@, sources@, mv, adj@);
            }
            return Err(ArnabError::Error(String::from_str("Cyclic dependency detected")));
        },
    };
    proof {
        // every kept source's model rendered and parsed
        assert(sources_render(sources@, mv)) by {
            assert forall|k: int| #[trigger] last_with_id(sources@, k) implies source_renders(
                sources@[k].raw_src@, mv) by {
                let m = choose|m: int| 0 <= m < n0v.len() && (#[trigger] n0v[m]).id@ == sources@[
                    k].id@ && n0v[m].path@ == sources@[k].path@ && n0v[m].raw_src@ == sources@[
                    k].raw_src@;
                assert(source_renders(n0v[m].raw_src@, mv));
            };
        };
    }
    let order0 = ids_for(&nodes, &order_idx);
    proof {
        assert forall|t: int| 0 <= t < order0@.len() implies !names_set(
            invalid_ids@).contains((#[trigger] order0@[t])@) by {
            assert(nodes@[order_idx@[t] as int].id@ == order0@[t]@);
            assert(ids_set(nodes@).contains(order0@[t]@));
        };
        lemma_filter_not_in_noop(order0@, names_set(invalid_ids@));
    }
    let order = filter_valid(order0, &invalid_ids);
    proof {
        assert(views_of(order@) == views_of(order0@));
        assert forall|t: int| 0 <= t < order@.len() implies (#[trigger] order@[t])@ == nodes@[
            order_idx@[t] as int].id@ by {
            assert(views_of(order@)[t] == views_of(order0@)[t]);
        };
    }
    let plans = build_plans(&nodes, &order_idx);
    let rp = RunPlan { nodes, order, model_plans: plans, warnings, invalid_ids };
    proof {
        reveal(run_plan_ok);
        let nodesv = rp.nodes@;
        let ordv = rp.order@;
        assert(ids_set(nodesv) =~= universe);
        // hand the source-id coverage across the id-preserving stages
        assert forall|k: int| 0 <= k < sources@.len() implies ids_set(nodesv).contains((
            #[trigger] sources@[k]).id@) by {
            assert(universe.contains(sources@[k].id@));
        };
        // the dependent sets invert the dependency sets
        assert forall|i2: int, j2: int| 0 <= i2 < nodesv.len() && 0 <= j2 < nodesv.len() implies (
            names_set((#[trigger] nodesv[i2]).nexts@).contains((#[trigger] nodesv[j2]).id@)
                <==> names_set(nodesv[j2].prevs@).contains(nodesv[i2].id@)) by {
            assert(names_set(nodesv[i2].nexts@) == dependents_set(pre_link, nodesv[i2].id@));
            assert(same_but_nexts(nodesv[j2], pre_link[j2]));
            if names_set(nodesv[i2].nexts@).contains(nodesv[j2].id@) {
                let w = choose|w: int| 0 <= w < pre_link.len() && (#[trigger] pre_link[w]).id@
                    == nodesv[j2].id@ && names_set(pre_link[w].prevs@).contains(nodesv[
                    i2].id@);
                assert(same_but_nexts(nodesv[w], pre_link[w]));
                if w != j2 {
                    assert(nodesv[w].id@ != nodesv[j2].id@);
                }
                assert(names_set(nodesv[j2].prevs@).contains(nodesv[i2].id@));
            }
            if names_set(nodesv[j2].prevs@).contains(nodesv[i2].id@) {
                assert(pre_link[j2].id@ == nodesv[j2].id@ && names_set(pre_link[
                    j2].prevs@).contains(nodesv[i2].id@));
                assert(dependents_set(pre_link, nodesv[i2].id@).contains(nodesv[j2].id@));
            }
        };
        // schedule coverage, in both directions
        assert forall|t: int| 0 <= t < ordv.len() implies ids_set(nodesv).contains((
            #[trigger] ordv[t])@) by {
            assert(nodesv[order_idx@[t] as int].id@ == ordv[t]@);
        };
        assert forall|i2: int| 0 <= i2 < nodesv.len() implies names_set(ordv).contains((
            #[trigger] nodesv[i2]).id@) by {
            assert(order_idx@.contains(i2 as usize));
            let t = choose|t: int| 0 <= t < order_idx@.len() && order_idx@[t] == i2 as usize;
            assert(ordv[t]@ == nodesv[i2].id@);
        };
        assert(no_dup_names(ordv)) by {
            assert forall|t1: int, t2: int| 0 <= t1 < t2 < ordv.len() implies ordv[t1]@ != ordv[
                t2]@ by {
                assert(order_idx@[t1] != order_idx@[t2]);
                assert(ordv[t1]@ == nodesv[order_idx@[t1] as int].id@);
                assert(ordv[t2]@ == nodesv[order_idx@[t2] as int].id@);
            };
        };
        lemma_ordering_from_indices(nodesv, adj@, order_idx@, ordv);
        // each plan belongs to its scheduled node
        assert forall|t: int| 0 <= t < rp.model_plans@.len() implies plan_for(
            #[trigger] rp.model_plans@[t], nodesv, ordv[t]@) by {
            let node = nodesv[order_idx@[t] as int];
            assert(nodesv[order_idx@[t] as int].id@ == ordv[t]@);
        };
    }
    Ok(rp)
}

/// How many outcomes of a run succeeded and how many failed.
pub open spec fn count_ok(outcomes: Seq<(String, Result<NodeExecutionResult, ArnabError>)>)
    -> int
    decreases outcomes.len(),
{
    if outcomes.len() == 0 {
        0
    } else {
        count_ok(outcomes.drop_last()) + if outcomes.last().1 is Ok {
            1int
        } else {
            0int
        }
    }
}

/// Tallies a run's outcomes: how many models succeeded and how many failed.
pub fn run_summary(outcomes: &Vec<(String, Result<NodeExecutionResult, ArnabError>)>) -> (r: (
    usize, usize))
    ensures
        r.0 == count_ok(outcomes@),
        r.0 + r.1 == outcomes@.len(),
{
    let mut n_ok: usize = 0;
    let mut i: usize = 0;
    while i < outcomes.len()
        invariant
            0 <= i <= outcomes@.len(),
            n_ok <= i,
            n_ok == count_ok(outcomes@.take(i as int)),
        decreases outcomes@.len() - i,
    {
        proof {
            assert(outcomes@.take(i + 1).drop_last() =~= outcomes@.take(i as int));
            assert(outcomes@.take(i + 1).last() == outcomes@[i as int]);
        }
        if outcomes[i].1.is_ok() {
            n_ok = n_ok + 1;
        }
        i = i + 1;
    }
    proof {
        assert(outcomes@.take(outcomes@.len() as int) =~= outcomes@);
    }
    (n_ok, outcomes.len() - n_ok)
}

/// The components of an elapsed-time rendering: hours, minutes and seconds
/// where they are not zero, and always the milliseconds.
pub open spec fn elapsed_components(secs: int, millis: int) -> Seq<Seq<char>> {
    let h = secs / 3600;
    let m = (secs % 3600) / 60;
    let s = secs % 60;
    (if h > 0 {
        seq![dec_rep(h) + "h"@]
    } else {
        Seq::empty()
    }) + (if m > 0 {
        seq![dec_rep(m) + "m"@]
    } else {
        Seq::empty()
    }) + (if s > 0 {
        seq![dec_rep(s) + "s"@]
    } else {
        Seq::empty()
    }) + seq![dec_rep(millis) + "ms"@]
}

/// An elapsed time rendered as its non-zero components joined by spaces.
pub open spec fn elapsed_rep(secs: int, millis: int) -> Seq<char> {
    join_with(elapsed_components(secs, millis), seq![' '])
}

/// Renders an elapsed time given as whole seconds and leftover milliseconds.
pub fn format_elapsed(secs: u64, subsec_millis: u32) -> (r: String)
    ensures
        r@ == elapsed_rep(secs as int, subsec_millis as int),
{
    let hours = secs / 3600;
    let minutes = (secs % 3600) / 60;
    let seconds = secs % 60;
    let mut components: Vec<String> = Vec::new();
    if hours > 0 {
        let mut c = u64_to_string(hours);
        c.append("h");
        components.push(c);
    }
    if minutes > 0 {
        let mut c = u64_to_string(minutes);
        c.append("m");
        components.push(c);
    }
    if seconds > 0 {
        let mut c = u64_to_string(seconds);
        c.append("s");
        components.push(c);
    }
    let mut c = u64_to_string(subsec_millis as u64);
    c.append("ms");
    components.push(c);
    proof {
        assert(views_of(components@) =~= elapsed_components(secs as int, subsec_millis as int));
        reveal_strlit(" ");
        assert(" "@ =~= seq![' ']);
    }
    join_strs(&components, " ")
}

} // verus!
