//! Grouping parsed elements into chains.
//!
//! A chain is a maximal run of elements between sequencing (`;`) boundaries.
//! The boundaries themselves are structural separators and are not kept in
//! any chain; a run of zero elements between two boundaries, or at either
//! end of the line, contributes no chain at all. Chains therefore are never
//! empty and never contain a sequencing operator.

use vstd::prelude::*;

use crate::grammar::Element;
use crate::grammar::ElemView;
use crate::grammar::Operator;
use crate::grammar::elem_wf;
use crate::grammar::lemma_parse_wf;
use crate::grammar::parse_elements;
use crate::grammar::spec_parse;
use crate::token::is_space;
use crate::token::lemma_tokenize_wf;
use crate::token::spec_tokenize;
use crate::token::tokenize;

verus! {

/// A maximal run of elements between sequencing boundaries, evaluated with
/// short-circuit semantics internal to the run.
#[derive(PartialEq, Debug)]
pub struct Chain {
    pub elements: Vec<Element>,
}

impl View for Chain {
    type V = Seq<ElemView>;

    open spec fn view(&self) -> Seq<ElemView> {
        self.elements.deep_view()
    }
}

impl DeepView for Chain {
    type V = Seq<ElemView>;

    open spec fn deep_view(&self) -> Seq<ElemView> {
        self.view()
    }
}

/// A sequencing boundary: the element that separates chains.
pub open spec fn is_boundary(e: ElemView) -> bool {
    e matches ElemView::Op { op } && op == Operator::Sequence
}

/// The chains of an element sequence: the maximal runs of elements between
/// sequencing boundaries, with the boundaries themselves dropped and empty
/// runs contributing nothing.
pub open spec fn spec_chains(es: Seq<ElemView>) -> Seq<Seq<ElemView>>
    decreases es.len(),
{
    if es.len() == 0 {
        Seq::empty()
    } else {
        let prefix = spec_chains(es.drop_last());
        let e = es.last();
        if is_boundary(e) {
            prefix
        } else if es.len() >= 2 && !is_boundary(es[es.len() - 2]) {
            prefix.update(prefix.len() - 1, prefix.last().push(e))
        } else {
            prefix.push(seq![e])
        }
    }
}

/// After an element that is not a boundary, there is at least one chain and
/// the last chain is non-empty.
pub proof fn lemma_chains_end_nonempty(es: Seq<ElemView>)
    requires
        es.len() > 0,
        !is_boundary(es.last()),
    ensures
        spec_chains(es).len() > 0,
        spec_chains(es).last().len() > 0,
    decreases es.len(),
{
    if es.len() >= 2 && !is_boundary(es[es.len() - 2]) {
        lemma_chains_end_nonempty(es.drop_last());
    }
}

/// A well-formed chain: non-empty, with no sequencing boundary inside.
pub open spec fn chain_wf(c: Seq<ElemView>) -> bool {
    c.len() > 0 && forall|i: int| 0 <= i < c.len() ==> !is_boundary(#[trigger] c[i])
}

/// Every chain built from an element sequence is well-formed: non-empty and
/// free of sequencing boundaries.
pub proof fn lemma_chains_wf(es: Seq<ElemView>)
    ensures
        forall|j: int| 0 <= j < spec_chains(es).len() ==> chain_wf(#[trigger] spec_chains(es)[j]),
    decreases es.len(),
{
    if es.len() > 0 {
        let prefix = spec_chains(es.drop_last());
        let e = es.last();
        lemma_chains_wf(es.drop_last());
        assert forall|j: int| 0 <= j < spec_chains(es).len() implies chain_wf(
            #[trigger] spec_chains(es)[j],
        ) by {
            if !is_boundary(e) && es.len() >= 2 && !is_boundary(es[es.len() - 2]) {
                lemma_chains_end_nonempty(es.drop_last());
                assert(chain_wf(prefix[prefix.len() - 1]));
                if j == prefix.len() - 1 {
                    let c = prefix.last().push(e);
                    assert forall|k: int| 0 <= k < c.len() implies !is_boundary(#[trigger] c[k]) by {
                        if k < prefix.last().len() {
                            assert(!is_boundary(prefix.last()[k]));
                        }
                    }
                } else {
                    assert(chain_wf(prefix[j]));
                }
            } else {
                if j < prefix.len() {
                    assert(chain_wf(prefix[j]));
                }
            }
        }
    }
}

/// A property that holds of every element also holds of every element of
/// every chain: building chains invents no elements.
pub proof fn lemma_chains_elements(es: Seq<ElemView>, pred: spec_fn(ElemView) -> bool)
    requires
        forall|i: int| 0 <= i < es.len() ==> pred(#[trigger] es[i]),
    ensures
        forall|j: int, k: int|
            0 <= j < spec_chains(es).len() && 0 <= k < spec_chains(es)[j].len() ==> pred(
                #[trigger] spec_chains(es)[j][k],
            ),
    decreases es.len(),
{
    if es.len() > 0 {
        let prefix = spec_chains(es.drop_last());
        let e = es.last();
        lemma_chains_elements(es.drop_last(), pred);
        assert(pred(es[es.len() - 1]));
        assert forall|j: int, k: int|
            0 <= j < spec_chains(es).len() && 0 <= k < spec_chains(es)[j].len() implies pred(
            #[trigger] spec_chains(es)[j][k],
        ) by {
            if !is_boundary(e) && es.len() >= 2 && !is_boundary(es[es.len() - 2]) {
                lemma_chains_end_nonempty(es.drop_last());
                if j == prefix.len() - 1 {
                    if k < prefix.last().len() {
                        assert(pred(prefix[j][k]));
                    }
                } else {
                    assert(pred(prefix[j][k]));
                }
            } else {
                if j < prefix.len() {
                    assert(pred(prefix[j][k]));
                }
            }
        }
    }
}

fn is_boundary_elem(e: &Element) -> (b: bool)
    ensures
        b == is_boundary(e@),
{
    match e {
        Element::Op(Operator::Sequence) => true,
        _ => false,
    }
}

/// Partitions an element sequence into chains at each sequencing boundary.
pub fn build_chains(elems: &Vec<Element>) -> (chains: Vec<Chain>)
    ensures
        chains.deep_view() == spec_chains(elems.deep_view()),
{
    let ghost es = elems.deep_view();
    let mut chains: Vec<Chain> = Vec::new();
    let mut i: usize = 0;
    let mut open_chain: bool = false;
    while i < elems.len()
        invariant
            elems.deep_view() == es,
            es.len() == elems.len(),
            i <= elems.len(),
            chains.deep_view() == spec_chains(es.subrange(0, i as int)),
            open_chain == (i > 0 && !is_boundary(es[i - 1])),
        decreases elems.len() - i,
    {
        let ghost p = es.subrange(0, i as int);
        let ghost p1 = es.subrange(0, i + 1 as int);
        proof {
            assert(p1.drop_last() =~= p);
        }
        let e = elems[i].duplicate();
        if is_boundary_elem(&e) {
            proof {
                assert(chains.deep_view() =~~= spec_chains(p1));
            }
            open_chain = false;
        } else {
            if open_chain {
                proof {
                    lemma_chains_end_nonempty(p);
                }
                let mut last = chains.pop().unwrap();
                last.elements.push(e);
                chains.push(last);
                proof {
                    assert(chains.deep_view() =~~= spec_chains(p1));
                }
            } else {
                let mut fresh: Vec<Element> = Vec::new();
                fresh.push(e);
                chains.push(Chain { elements: fresh });
                proof {
                    assert(chains.deep_view() =~~= spec_chains(p1));
                }
            }
            open_chain = true;
        }
        i = i + 1;
    }
    proof {
        assert(es.subrange(0, elems.len() as int) =~= es);
    }
    chains
}

/// Parses a raw input line all the way to its chains: tokens, then elements,
/// then chains. Every chain is well-formed and every element of every chain
/// is well-formed; in particular no command with an empty binary can come
/// out of parsing.
pub fn parse_line(line: &str) -> (chains: Vec<Chain>)
    ensures
        chains.deep_view() == spec_chains(spec_parse(spec_tokenize(line@))),
        forall|j: int|
            0 <= j < chains.deep_view().len() ==> chain_wf(#[trigger] chains.deep_view()[j]),
        forall|j: int, k: int|
            0 <= j < chains.deep_view().len() && 0 <= k < chains.deep_view()[j].len() ==> elem_wf(
                #[trigger] chains.deep_view()[j][k],
            ),
{
    let toks = tokenize(line);
    let elems = parse_elements(&toks);
    let chains = build_chains(&elems);
    proof {
        lemma_tokenize_wf(line@);
        lemma_parse_wf(toks.deep_view());
        lemma_chains_wf(elems.deep_view());
        lemma_chains_elements(elems.deep_view(), |e: ElemView| elem_wf(e));
    }
    chains
}

/// A line of nothing but whitespace parses to no elements and no chains.
pub proof fn lemma_blank_line_is_empty(s: Seq<char>)
    requires
        forall|i: int| 0 <= i < s.len() ==> is_space(#[trigger] s[i]),
    ensures
        spec_parse(spec_tokenize(s)) == Seq::<ElemView>::empty(),
        spec_chains(spec_parse(spec_tokenize(s))) == Seq::<Seq<ElemView>>::empty(),
{
    crate::token::lemma_tokenize_all_space(s);
}

} // verus!
