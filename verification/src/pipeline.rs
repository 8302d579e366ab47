//! The whole pipeline: header inlining, element extraction, graph
//! building, topological reordering, reassembly and macro rewriting,
//! each stage consuming the previous stage's full output.
//!
//! Under the linear-chain edge policy the graph is acyclic by
//! construction, so the reorder stage is owed success and its output
//! is exactly the extraction order; the contracts below say so.

use vstd::prelude::*;
use crate::bytes::lines_view;
use crate::defines::handle_macros_spec;
use crate::elements::{extract_spec, elems_model, lemma_extract_spec};
use crate::graph::chain_edges;
use crate::headers::{inline_spec, missing_spec, contents_view};
use crate::reassemble::{reassemble_spec, all_ids_present, has_id};
use crate::toposort::CycleDetected;

verus! {

/// The extraction order of the extracted elements: their identities.
pub open spec fn chain_order(es: Seq<(int, Seq<u8>)>) -> Seq<usize> {
    es.map_values(|p: (int, Seq<u8>)| p.0 as usize)
}

/// What the reorder stage makes of a text: the elements of the text,
/// in extraction order, each as a marker line and its raw text.
pub open spec fn reorder_spec(lines: Seq<Seq<u8>>) -> Seq<Seq<u8>> {
    let es = extract_spec(lines, lines.len() as int);
    reassemble_spec(chain_order(es), es, es.len() as int)
}

/// Reorders the text's detected elements along the dependency graph.
///
/// The graph is built by the linear-chain policy over the extracted
/// elements, so it is acyclic and the sort cannot fail: success is
/// owed on every input, and the output is the reassembled text in
/// extraction order.
pub fn reorder_elements(lines: &Vec<Vec<u8>>) -> (r: Result<Vec<Vec<u8>>, CycleDetected>)
    ensures
        r is Ok,
        r matches Ok(out) ==> lines_view(out@) == reorder_spec(lines_view(lines@)),
{
    let ghost ls = lines_view(lines@);
    let elements = crate::elements::extract_elements(lines);
    let ghost es = elems_model(elements@);
    proof {
        lemma_extract_spec(ls, ls.len() as int);
    }
    // the identities, in extraction order
    let mut ids: Vec<usize> = Vec::new();
    let mut t: usize = 0;
    while t < elements.len()
        invariant
            t <= elements@.len(),
            ids@.len() == t,
            forall|u: int| 0 <= u < t ==> #[trigger] ids@[u] == elements@[u].identity,
        decreases elements@.len() - t,
    {
        ids.push(elements[t].identity);
        t = t + 1;
    }
    proof {
        assert(es == extract_spec(ls, ls.len() as int));
        assert forall|u: int| 0 <= u < ids@.len() implies #[trigger] ids@[u] as int == es[u].0 by {
            assert(es[u] == (elements@[u].identity as int, elements@[u].raw_text@));
        }
        assert forall|i: int, j: int| 0 <= i < j < ids@.len() implies ids@[i] < ids@[j] by {
            assert(es[i].0 < es[j].0);
        }
        assert(ids@ =~= chain_order(es));
    }
    let g = crate::graph::build_graph(&ids);
    match crate::toposort::topo_sort(&g.nodes, &g.edges) {
        Ok(order) => {
            proof {
                assert forall|k: int|
                    0 <= k < chain_edges(ids@).len() implies (#[trigger] chain_edges(ids@)[k]).0
                    < chain_edges(ids@)[k].1 by {
                    assert(chain_edges(ids@)[k] == (ids@[k], ids@[k + 1]));
                }
                crate::toposort::lemma_chain_order_unique(order@, ids@);
                assert(order@ == ids@);
                assert forall|t2: int| 0 <= t2 < order@.len() implies #[trigger] has_id(
                    elements@,
                    order@[t2],
                ) by {
                    assert(order@[t2] == ids@[t2]);
                    assert(elements@[t2].identity == ids@[t2]);
                }
                assert(all_ids_present(order@, elements@));
            }
            let out = crate::reassemble::reassemble(&order, &elements);
            proof {
                assert(lines_view(out@) == reassemble_spec(chain_order(es), es, es.len() as int));
            }
            Ok(out)
        },
        Err(e) => {
            proof {
                assert forall|k: int|
                    0 <= k < chain_edges(ids@).len() implies (#[trigger] chain_edges(ids@)[k]).0
                    < chain_edges(ids@)[k].1 by {
                    assert(chain_edges(ids@)[k] == (ids@[k], ids@[k + 1]));
                }
                crate::toposort::lemma_increasing_edges_acyclic(chain_edges(ids@));
                assert(false);
            }
            Err(e)
        },
    }
}

/// What the whole pipeline makes of a text and the header read
/// results: inlining, then reordering, then macro rewriting.
pub open spec fn preprocess_spec(
    lines: Seq<Seq<u8>>,
    contents: Seq<Option<Seq<Seq<u8>>>>,
) -> Seq<Seq<u8>> {
    handle_macros_spec(reorder_spec(inline_spec(lines, contents, lines.len() as int)))
}

/// Runs the pipeline on a text.  `contents[i]` is the read result for
/// the header named on line `i`, where line `i` is a directive (the
/// caller performs the reads; a missing header becomes a warning, not
/// a failure).  Returns the transformed text and the warnings; the
/// linear-chain policy keeps the graph acyclic, so success is owed on
/// every input.
pub fn preprocess(lines: &Vec<Vec<u8>>, contents: &Vec<Option<Vec<Vec<u8>>>>) -> (r: Result<
    (Vec<Vec<u8>>, Vec<Vec<u8>>),
    CycleDetected,
>)
    requires
        contents@.len() == lines@.len(),
    ensures
        r is Ok,
        r matches Ok(p) ==> {
            &&& lines_view(p.0@) == preprocess_spec(lines_view(lines@), contents_view(contents@))
            &&& lines_view(p.1@) == missing_spec(
                lines_view(lines@),
                contents_view(contents@),
                lines@.len() as int,
            )
        },
{
    let (inlined, missing) = crate::headers::inline_headers(lines, contents);
    match reorder_elements(&inlined) {
        Ok(reordered) => {
            let out = crate::defines::handle_macros(&reordered);
            Ok((out, missing))
        },
        Err(e) => Err(e),
    }
}

} // verus!
