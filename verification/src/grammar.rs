//! Grouping tokens into elements: control operators and commands.
//!
//! The parser consumes tokens left to right. A token that exactly equals an
//! operator literal (`;`, `&&`, `||`) becomes an operator element; any other
//! token opens a command, which then greedily swallows the following tokens
//! as arguments until the next operator literal or the end of the stream.
//! Operator recognition has absolute priority at every token boundary, so an
//! argument can never equal an operator literal; this is a deliberate
//! limitation (there is no quoting). Parsing never fails: an empty token
//! stream yields an empty element sequence.

use vstd::prelude::*;

use crate::token::token_wf;

verus! {

/// A control operator: `;` sequences chains, `&&` and `||` short-circuit
/// within a chain.
#[derive(Clone, Copy, PartialEq, Eq, Structural, Debug)]
pub enum Operator {
    Sequence,
    And,
    Or,
}

/// A command to hand to the process layer: a binary name and its arguments.
#[derive(PartialEq, Debug)]
pub struct Cmd {
    pub binary: String,
    pub args: Vec<String>,
}

/// The mathematical shape of a command: its binary name and arguments as
/// character sequences.
#[verifier::ext_equal]
pub ghost struct CmdView {
    pub binary: Seq<char>,
    pub args: Seq<Seq<char>>,
}

/// One parsed element of a line: an operator or a command.
#[derive(PartialEq, Debug)]
pub enum Element {
    Op(Operator),
    Cmd(Cmd),
}

/// The mathematical shape of an element.
#[verifier::ext_equal]
pub ghost enum ElemView {
    Op { op: Operator },
    Cmd { cmd: CmdView },
}

impl View for Cmd {
    type V = CmdView;

    open spec fn view(&self) -> CmdView {
        CmdView { binary: self.binary@, args: self.args.deep_view() }
    }
}

impl DeepView for Cmd {
    type V = CmdView;

    open spec fn deep_view(&self) -> CmdView {
        self.view()
    }
}

impl View for Element {
    type V = ElemView;

    open spec fn view(&self) -> ElemView {
        match self {
            Element::Op(op) => ElemView::Op { op: *op },
            Element::Cmd(c) => ElemView::Cmd { cmd: c@ },
        }
    }
}

impl DeepView for Element {
    type V = ElemView;

    open spec fn deep_view(&self) -> ElemView {
        self.view()
    }
}

/// The operator a token stands for, if it exactly matches one of the three
/// operator literals.
pub open spec fn spec_op_of(t: Seq<char>) -> Option<Operator> {
    if t == seq![';'] {
        Some(Operator::Sequence)
    } else if t == seq!['&', '&'] {
        Some(Operator::And)
    } else if t == seq!['|', '|'] {
        Some(Operator::Or)
    } else {
        None
    }
}

/// The elements of a token sequence: operators where a token is an operator
/// literal, and commands that collect each maximal run of other tokens.
pub open spec fn spec_parse(ts: Seq<Seq<char>>) -> Seq<ElemView>
    decreases ts.len(),
{
    if ts.len() == 0 {
        Seq::empty()
    } else {
        let prefix = spec_parse(ts.drop_last());
        let t = ts.last();
        match spec_op_of(t) {
            Some(op) => prefix.push(ElemView::Op { op }),
            None => {
                if ts.len() >= 2 && spec_op_of(ts[ts.len() - 2]) is None {
                    let c = prefix.last()->cmd;
                    prefix.update(
                        prefix.len() - 1,
                        ElemView::Cmd { cmd: CmdView { binary: c.binary, args: c.args.push(t) } },
                    )
                } else {
                    prefix.push(ElemView::Cmd { cmd: CmdView { binary: t, args: Seq::empty() } })
                }
            },
        }
    }
}

/// After a token that is not an operator literal, the element sequence is
/// non-empty and ends in a command.
pub proof fn lemma_parse_ends_in_cmd(ts: Seq<Seq<char>>)
    requires
        ts.len() > 0,
        spec_op_of(ts.last()) is None,
    ensures
        spec_parse(ts).len() > 0,
        spec_parse(ts).last() is Cmd,
    decreases ts.len(),
{
    if ts.len() >= 2 && spec_op_of(ts[ts.len() - 2]) is None {
        lemma_parse_ends_in_cmd(ts.drop_last());
    }
}

/// Recognizes a token that exactly matches an operator literal.
pub fn op_of_token(t: &str) -> (r: Option<Operator>)
    ensures
        r == spec_op_of(t@),
{
    let n = t.unicode_len();
    if n == 1 {
        let c = t.get_char(0);
        if c == ';' {
            proof {
                assert(t@ =~= seq![';']);
            }
            Some(Operator::Sequence)
        } else {
            None
        }
    } else if n == 2 {
        let c0 = t.get_char(0);
        let c1 = t.get_char(1);
        if c0 == '&' && c1 == '&' {
            proof {
                assert(t@ =~= seq!['&', '&']);
            }
            Some(Operator::And)
        } else if c0 == '|' && c1 == '|' {
            proof {
                assert(t@ =~= seq!['|', '|']);
            }
            Some(Operator::Or)
        } else {
            None
        }
    } else {
        None
    }
}

impl Cmd {
    /// An independently owned copy of the command, equal to it in every
    /// observable way.
    pub fn duplicate(&self) -> (r: Cmd)
        ensures
            r@ == self@,
    {
        let mut args: Vec<String> = Vec::new();
        let mut i: usize = 0;
        while i < self.args.len()
            invariant
                i <= self.args.len(),
                args@.len() == i,
                forall|j: int| 0 <= j < i ==> args@[j]@ == self.args@[j]@,
            decreases self.args.len() - i,
        {
            let cl = self.args[i].clone();
            args.push(cl);
            i = i + 1;
        }
        let r = Cmd { binary: self.binary.clone(), args };
        proof {
            assert(forall|j: int|
                0 <= j < r.args@.len() ==> r.args.deep_view()[j] == r.args@[j]@);
            assert(forall|j: int|
                0 <= j < self.args@.len() ==> self.args.deep_view()[j] == self.args@[j]@);
            assert(r.args.deep_view() =~= self.args.deep_view());
            assert(r@ =~~= self@);
        }
        r
    }
}

impl Element {
    /// An independently owned copy of the element, equal to it in every
    /// observable way.
    pub fn duplicate(&self) -> (r: Element)
        ensures
            r@ == self@,
    {
        match self {
            Element::Op(op) => Element::Op(*op),
            Element::Cmd(c) => Element::Cmd(c.duplicate()),
        }
    }
}

/// Groups a token sequence into operator and command elements.
pub fn parse_elements(toks: &Vec<String>) -> (elems: Vec<Element>)
    ensures
        elems.deep_view() == spec_parse(toks.deep_view()),
{
    let ghost ts = toks.deep_view();
    let mut elems: Vec<Element> = Vec::new();
    let mut i: usize = 0;
    let mut after_cmd_tok: bool = false;
    while i < toks.len()
        invariant
            toks.deep_view() == ts,
            ts.len() == toks.len(),
            i <= toks.len(),
            elems.deep_view() == spec_parse(ts.subrange(0, i as int)),
            after_cmd_tok == (i > 0 && spec_op_of(ts[i - 1]) is None),
        decreases toks.len() - i,
    {
        let ghost p = ts.subrange(0, i as int);
        let ghost p1 = ts.subrange(0, i + 1 as int);
        proof {
            assert(p1.drop_last() =~= p);
        }
        let tok = &toks[i];
        match op_of_token(tok.as_str()) {
            Some(op) => {
                elems.push(Element::Op(op));
                proof {
                    assert(elems.deep_view() =~~= spec_parse(p1));
                }
                after_cmd_tok = false;
            },
            None => {
                if after_cmd_tok {
                    proof {
                        lemma_parse_ends_in_cmd(p);
                    }
                    let last = elems.pop().unwrap();
                    match last {
                        Element::Cmd(mut c) => {
                            c.args.push(tok.clone());
                            elems.push(Element::Cmd(c));
                            proof {
                                assert(elems.deep_view() =~~= spec_parse(p1));
                            }
                        },
                        Element::Op(_) => {
                            proof {
                                assert(false);
                            }
                        },
                    }
                } else {
                    elems.push(Element::Cmd(Cmd { binary: tok.clone(), args: Vec::new() }));
                    proof {
                        assert(elems.deep_view() =~~= spec_parse(p1));
                    }
                }
                after_cmd_tok = true;
            },
        }
        i = i + 1;
    }
    proof {
        assert(ts.subrange(0, toks.len() as int) =~= ts);
    }
    elems
}

/// A well-formed command: its binary and arguments are well-formed tokens,
/// and none of them equals an operator literal. In particular the binary is
/// never empty, so an empty command is not constructible by parsing.
pub open spec fn cmd_wf(c: CmdView) -> bool {
    &&& token_wf(c.binary)
    &&& spec_op_of(c.binary) is None
    &&& forall|i: int|
        0 <= i < c.args.len() ==> token_wf(#[trigger] c.args[i]) && spec_op_of(c.args[i]) is None
}

/// A well-formed element: if it is a command, the command is well-formed.
pub open spec fn elem_wf(e: ElemView) -> bool {
    e matches ElemView::Cmd { cmd } ==> cmd_wf(cmd)
}

/// Parsing well-formed tokens yields only well-formed elements.
pub proof fn lemma_parse_wf(ts: Seq<Seq<char>>)
    requires
        forall|i: int| 0 <= i < ts.len() ==> token_wf(#[trigger] ts[i]),
    ensures
        forall|j: int| 0 <= j < spec_parse(ts).len() ==> elem_wf(#[trigger] spec_parse(ts)[j]),
    decreases ts.len(),
{
    if ts.len() > 0 {
        let prefix = spec_parse(ts.drop_last());
        let t = ts.last();
        lemma_parse_wf(ts.drop_last());
        assert(token_wf(ts[ts.len() - 1]));
        assert forall|j: int| 0 <= j < spec_parse(ts).len() implies elem_wf(
            #[trigger] spec_parse(ts)[j],
        ) by {
            if spec_op_of(t) is None && ts.len() >= 2 && spec_op_of(ts[ts.len() - 2]) is None {
                lemma_parse_ends_in_cmd(ts.drop_last());
                let c = prefix.last()->cmd;
                assert(elem_wf(prefix[prefix.len() - 1]));
                if j == prefix.len() - 1 {
                    let a = c.args.push(t);
                    assert forall|k: int| 0 <= k < a.len() implies token_wf(#[trigger] a[k])
                        && spec_op_of(a[k]) is None by {
                        if k < c.args.len() {
                            assert(token_wf(c.args[k]) && spec_op_of(c.args[k]) is None);
                        } else {
                            assert(a[k] == t);
                        }
                    }
                } else {
                    assert(elem_wf(prefix[j]));
                }
            } else {
                if j < prefix.len() {
                    assert(elem_wf(prefix[j]));
                }
            }
        }
    }
}

} // verus!

