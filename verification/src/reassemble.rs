//! The reassembler: emits the reordered elements as annotated text.
//!
//! For each identity in the given order it emits a marker line naming
//! the element, then the element's raw text.  Content that was not
//! extracted as an element is not reproduced; that scope limit is
//! inherited from the extractor's line-local detection.

use vstd::prelude::*;
use crate::bytes::{dec_digits, lines_view};
use crate::elements::{CodeElement, elems_model};

verus! {

/// The bytes of `// Function start: Function_`.
pub open spec fn marker_prefix() -> Seq<u8> {
    seq![
        47u8, 47u8, 32u8, 70u8, 117u8, 110u8, 99u8, 116u8, 105u8, 111u8, 110u8, 32u8, 115u8,
        116u8, 97u8, 114u8, 116u8, 58u8, 32u8, 70u8, 117u8, 110u8, 99u8, 116u8, 105u8, 111u8,
        110u8, 95u8,
    ]
}

/// The marker line for the element with the given identity.
pub open spec fn marker_line(id: nat) -> Seq<u8> {
    marker_prefix() + dec_digits(id)
}

/// The raw text of the first element carrying the given identity.
pub open spec fn elem_raw(es: Seq<(int, Seq<u8>)>, id: int) -> Seq<u8>
    decreases es.len(),
{
    if es.len() == 0 {
        Seq::empty()
    } else if es[0].0 == id {
        es[0].1
    } else {
        elem_raw(es.drop_first(), id)
    }
}

proof fn lemma_elem_raw_at(es: Seq<(int, Seq<u8>)>, j: int)
    requires
        0 <= j < es.len(),
        forall|t: int| 0 <= t < j ==> (#[trigger] es[t]).0 != es[j].0,
    ensures
        elem_raw(es, es[j].0) == es[j].1,
    decreases j,
{
    if j == 0 {
    } else {
        assert(es[0].0 != es[j].0);
        let rest = es.drop_first();
        assert forall|t: int| 0 <= t < j - 1 implies (#[trigger] rest[t]).0 != rest[j - 1].0 by {
            assert(rest[t] == es[t + 1]);
            assert(rest[j - 1] == es[j]);
        }
        lemma_elem_raw_at(rest, j - 1);
        assert(rest[j - 1] == es[j]);
    }
}

/// The first `n` entries of the reassembled text: a marker line and
/// the raw text for each identity in order.
pub open spec fn reassemble_spec(order: Seq<usize>, es: Seq<(int, Seq<u8>)>, n: int) -> Seq<
    Seq<u8>,
>
    decreases n,
{
    if n <= 0 {
        Seq::empty()
    } else {
        reassemble_spec(order, es, n - 1) + seq![
            marker_line(order[n - 1] as nat),
            elem_raw(es, order[n - 1] as int),
        ]
    }
}

/// Builds the marker line for one identity.
fn make_marker(id: usize) -> (r: Vec<u8>)
    ensures
        r@ == marker_line(id as nat),
{
    let mut r: Vec<u8> = Vec::new();
    r.push(47);
    r.push(47);
    r.push(32);
    r.push(70);
    r.push(117);
    r.push(110);
    r.push(99);
    r.push(116);
    r.push(105);
    r.push(111);
    r.push(110);
    r.push(32);
    r.push(115);
    r.push(116);
    r.push(97);
    r.push(114);
    r.push(116);
    r.push(58);
    r.push(32);
    r.push(70);
    r.push(117);
    r.push(110);
    r.push(99);
    r.push(116);
    r.push(105);
    r.push(111);
    r.push(110);
    r.push(95);
    proof {
        assert(r@ =~= marker_prefix());
    }
    crate::bytes::append_dec(&mut r, id);
    r
}

/// Some element carries the given identity.
pub open spec fn has_id(es: Seq<CodeElement>, id: usize) -> bool {
    exists|u: int| 0 <= u < es.len() && (#[trigger] es[u]).identity == id
}

/// Every identity of the order is carried by some element.
pub open spec fn all_ids_present(order: Seq<usize>, es: Seq<CodeElement>) -> bool {
    forall|t: int| 0 <= t < order.len() ==> #[trigger] has_id(es, order[t])
}

/// Emits, for each identity in order, a marker line followed by the
/// raw text of the first element carrying that identity.
pub fn reassemble(order: &Vec<usize>, elements: &Vec<CodeElement>) -> (r: Vec<Vec<u8>>)
    requires
        all_ids_present(order@, elements@),
    ensures
        lines_view(r@) == reassemble_spec(order@, elems_model(elements@), order@.len() as int),
{
    let ghost es = elems_model(elements@);
    let mut r: Vec<Vec<u8>> = Vec::new();
    let mut t: usize = 0;
    while t < order.len()
        invariant
            t <= order@.len(),
            all_ids_present(order@, elements@),
            es == elems_model(elements@),
            lines_view(r@) == reassemble_spec(order@, es, t as int),
        decreases order@.len() - t,
    {
        let id = order[t];
        let marker = make_marker(id);
        crate::bytes::push_line(&mut r, marker);
        // find the first element with this identity
        let mut u: usize = 0;
        let mut raw: Vec<u8> = Vec::new();
        let mut found: bool = false;
        while u < elements.len()
            invariant
                u <= elements@.len(),
                es == elems_model(elements@),
                id == order@[t as int],
                t < order@.len(),
                all_ids_present(order@, elements@),
                !found ==> forall|v: int|
                    0 <= v < u ==> (#[trigger] elements@[v]).identity != id,
                found ==> raw@ == elem_raw(es, id as int),
            decreases elements@.len() - u,
        {
            if !found && elements[u].identity == id {
                raw = crate::bytes::copy_line(&elements[u].raw_text);
                found = true;
                proof {
                    let ui = u as int;
                    assert forall|v: int| 0 <= v < ui implies (#[trigger] es[v]).0 != es[ui].0 by {
                        assert(es[v].0 == elements@[v].identity as int);
                    }
                    lemma_elem_raw_at(es, ui);
                    assert(es[ui] == (elements@[ui].identity as int, elements@[ui].raw_text@));
                }
            }
            u = u + 1;
        }
        proof {
            if !found {
                let ti = t as int;
                assert(has_id(elements@, order@[ti]));
                let u2 = choose|u2: int|
                    0 <= u2 < elements@.len() && (#[trigger] elements@[u2]).identity == order@[ti];
                assert(elements@[u2].identity != id);
                assert(false);
            }
        }
        crate::bytes::push_line(&mut r, raw);
        proof {
            assert(lines_view(r@) =~= reassemble_spec(order@, es, t + 1));
        }
        t = t + 1;
    }
    r
}

} // verus!
