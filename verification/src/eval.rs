//! Evaluating a chain with short-circuit control flow.
//!
//! The evaluator walks a chain left to right, keeping one piece of state:
//! the most recent command's outcome, `None` meaning that no command result
//! is available (nothing has run yet, an operator cleared the slot, or the
//! last spawn failed). A command hands itself to the process layer and
//! stores the outcome. `&&` stops the chain when the preceding result is a
//! failure, `||` when it is a success; either operator clears the slot and
//! continues otherwise, and either aborts the chain with a missing-operand
//! error when no result is available at all.
//!
//! The core never spawns anything itself. The surrounding program drives it
//! step by step with [`advance`] and [`record_outcome`], or, when all the
//! outcomes are known in advance (as in a test with a scripted process
//! layer), runs a whole chain with [`run_chain`]. Everything is specified
//! against [`spec_run`], the mathematical evaluation of a chain under a
//! given sequence of outcomes.

use vstd::prelude::*;

use crate::chain::Chain;
use crate::grammar::Cmd;
use crate::grammar::CmdView;
use crate::grammar::ElemView;
use crate::grammar::Element;
use crate::grammar::Operator;

verus! {

/// What evaluating one chain did: the commands handed to the process layer,
/// in order, and whether the chain was aborted because an operator had no
/// preceding command result.
#[derive(PartialEq, Debug)]
pub struct ChainRun {
    pub spawned: Vec<Cmd>,
    pub missing_operand: bool,
}

/// The mathematical shape of a chain's evaluation.
#[verifier::ext_equal]
pub ghost struct ChainRunView {
    pub spawned: Seq<CmdView>,
    pub missing_operand: bool,
}

impl View for ChainRun {
    type V = ChainRunView;

    open spec fn view(&self) -> ChainRunView {
        ChainRunView { spawned: self.spawned.deep_view(), missing_operand: self.missing_operand }
    }
}

impl DeepView for ChainRun {
    type V = ChainRunView;

    open spec fn deep_view(&self) -> ChainRunView {
        self.view()
    }
}

/// The evaluation of a chain, given the outcomes the process layer reports:
/// `outs[i]` answers the `i`-th spawned command, `None` standing for a spawn
/// failure and `Some(ok)` for an exit with success flag `ok`. `last` is the
/// command result currently in the state slot. Missing outcomes count as
/// spawn failures; a sequencing boundary (which a well-formed chain never
/// contains) ends the chain.
pub open spec fn spec_run(
    es: Seq<ElemView>,
    outs: Seq<Option<bool>>,
    last: Option<bool>,
) -> ChainRunView
    decreases es.len(),
{
    if es.len() == 0 {
        ChainRunView { spawned: Seq::empty(), missing_operand: false }
    } else {
        match es[0] {
            ElemView::Cmd { cmd } => {
                let out = if outs.len() > 0 {
                    outs[0]
                } else {
                    None
                };
                let rest_outs = if outs.len() > 0 {
                    outs.drop_first()
                } else {
                    outs
                };
                let rest = spec_run(es.drop_first(), rest_outs, out);
                ChainRunView {
                    spawned: seq![cmd] + rest.spawned,
                    missing_operand: rest.missing_operand,
                }
            },
            ElemView::Op { op } => {
                if op == Operator::Sequence {
                    ChainRunView { spawned: Seq::empty(), missing_operand: false }
                } else {
                    match last {
                        None => ChainRunView { spawned: Seq::empty(), missing_operand: true },
                        Some(ok) => {
                            let stop = if op == Operator::And {
                                !ok
                            } else {
                                ok
                            };
                            if stop {
                                ChainRunView { spawned: Seq::empty(), missing_operand: false }
                            } else {
                                spec_run(es.drop_first(), outs, None)
                            }
                        },
                    }
                }
            },
        }
    }
}

/// How many command elements a chain holds: an upper bound on how many
/// outcomes evaluating it can consume.
pub open spec fn count_cmds(es: Seq<ElemView>) -> nat
    decreases es.len(),
{
    if es.len() == 0 {
        0
    } else {
        (if es[0] is Cmd {
            1nat
        } else {
            0nat
        }) + count_cmds(es.drop_first())
    }
}

/// Evaluation spawns at most one command per command element.
pub proof fn lemma_spawned_le_count(es: Seq<ElemView>, outs: Seq<Option<bool>>, last: Option<bool>)
    ensures
        spec_run(es, outs, last).spawned.len() <= count_cmds(es),
    decreases es.len(),
{
    if es.len() > 0 {
        match es[0] {
            ElemView::Cmd { cmd } => {
                let out = if outs.len() > 0 {
                    outs[0]
                } else {
                    None
                };
                let rest_outs = if outs.len() > 0 {
                    outs.drop_first()
                } else {
                    outs
                };
                lemma_spawned_le_count(es.drop_first(), rest_outs, out);
            },
            ElemView::Op { op } => {
                if op != Operator::Sequence {
                    match last {
                        Some(ok) => {
                            let stop = if op == Operator::And {
                                !ok
                            } else {
                                ok
                            };
                            if !stop {
                                lemma_spawned_le_count(es.drop_first(), outs, None);
                            }
                        },
                        None => {},
                    }
                }
            },
        }
    }
}

/// The evaluator's per-chain state: the position of the next element to
/// look at, and the most recent command result (`None` when no result is
/// available).
#[derive(Clone, Copy, Debug)]
pub struct EvalState {
    pub pos: usize,
    pub last: Option<bool>,
}

impl EvalState {
    /// The state at the start of a chain: at the first element, with no
    /// command result available.
    pub fn start() -> (st: EvalState)
        ensures
            st.pos == 0,
            st.last is None,
    {
        EvalState { pos: 0, last: None }
    }
}

/// What the evaluator asks of its driver next.
#[derive(PartialEq, Debug)]
pub enum StepAction {
    /// Hand this command to the process layer, then report the outcome with
    /// [`record_outcome`].
    Run(Cmd),
    /// The chain reached an `&&` or `||` with no command result available:
    /// report the usage error; the chain is aborted.
    MissingOperand,
    /// The chain is finished (its end, or a short-circuit).
    Done,
}

/// Walks the chain from the current position, applying operator semantics,
/// until it reaches a command to run, the end of the chain, a short-circuit,
/// or an operator with no preceding command result.
///
/// The contract ties each step to [`spec_run`]: whatever outcomes the
/// process layer would go on to report, evaluation from the old state and
/// from the new state agree.
pub fn advance(chain: &Chain, st: &mut EvalState) -> (a: StepAction)
    requires
        old(st).pos <= chain@.len(),
    ensures
        final(st).pos <= chain@.len(),
        a matches StepAction::Run(c) ==> {
            &&& old(st).pos <= final(st).pos < chain@.len()
            &&& chain@[final(st).pos as int] == (ElemView::Cmd { cmd: c@ })
            &&& count_cmds(chain@.skip(final(st).pos as int)) <= count_cmds(
                chain@.skip(old(st).pos as int),
            )
            &&& forall|outs: Seq<Option<bool>>|
                #[trigger] spec_run(chain@.skip(old(st).pos as int), outs, old(st).last)
                    == spec_run(chain@.skip(final(st).pos as int), outs, final(st).last)
        },
        a is MissingOperand ==> forall|outs: Seq<Option<bool>>|
            #[trigger] spec_run(chain@.skip(old(st).pos as int), outs, old(st).last) == (
            ChainRunView { spawned: Seq::empty(), missing_operand: true }),
        a is Done ==> forall|outs: Seq<Option<bool>>|
            #[trigger] spec_run(chain@.skip(old(st).pos as int), outs, old(st).last) == (
            ChainRunView { spawned: Seq::empty(), missing_operand: false }),
{
    let ghost pos0 = st.pos;
    let ghost last0 = st.last;
    loop
        invariant
            pos0 == old(st).pos,
            last0 == old(st).last,
            pos0 <= st.pos <= chain@.len(),
            count_cmds(chain@.skip(st.pos as int)) <= count_cmds(chain@.skip(pos0 as int)),
            forall|outs: Seq<Option<bool>>|
                #[trigger] spec_run(chain@.skip(pos0 as int), outs, last0) == spec_run(
                    chain@.skip(st.pos as int),
                    outs,
                    st.last,
                ),
        decreases chain@.len() - st.pos,
    {
        if st.pos == chain.elements.len() {
            proof {
                assert forall|outs: Seq<Option<bool>>|
                    #[trigger] spec_run(chain@.skip(pos0 as int), outs, last0) == (ChainRunView {
                    spawned: Seq::empty(),
                    missing_operand: false,
                }) by {
                    assert(chain@.skip(st.pos as int) =~= Seq::<ElemView>::empty());
                }
            }
            return StepAction::Done;
        }
        let ghost tail = chain@.skip(st.pos as int);
        proof {
            assert(tail[0] == chain@[st.pos as int]);
            assert(chain@[st.pos as int] == chain.elements@[st.pos as int].deep_view());
        }
        let e = &chain.elements[st.pos];
        match e {
            Element::Cmd(c) => {
                let r = c.duplicate();
                proof {
                    assert(tail[0] == (ElemView::Cmd { cmd: r@ }));
                }
                return StepAction::Run(r);
            },
            Element::Op(op) => {
                let o = *op;
                if o == Operator::Sequence {
                    proof {
                        assert forall|outs: Seq<Option<bool>>|
                            #[trigger] spec_run(chain@.skip(pos0 as int), outs, last0) == (
                        ChainRunView { spawned: Seq::empty(), missing_operand: false }) by {
                            assert(spec_run(tail, outs, st.last) == (ChainRunView {
                                spawned: Seq::empty(),
                                missing_operand: false,
                            }));
                        }
                    }
                    st.pos = chain.elements.len();
                    return StepAction::Done;
                }
                match st.last {
                    None => {
                        proof {
                            assert forall|outs: Seq<Option<bool>>|
                                #[trigger] spec_run(chain@.skip(pos0 as int), outs, last0) == (
                            ChainRunView { spawned: Seq::empty(), missing_operand: true }) by {
                                assert(spec_run(tail, outs, st.last) == (ChainRunView {
                                    spawned: Seq::empty(),
                                    missing_operand: true,
                                }));
                            }
                        }
                        st.pos = chain.elements.len();
                        return StepAction::MissingOperand;
                    },
                    Some(ok) => {
                        let stop = if o == Operator::And {
                            !ok
                        } else {
                            ok
                        };
                        if stop {
                            proof {
                                assert forall|outs: Seq<Option<bool>>|
                                    #[trigger] spec_run(chain@.skip(pos0 as int), outs, last0) == (
                                ChainRunView { spawned: Seq::empty(), missing_operand: false }) by {
                                    assert(spec_run(tail, outs, st.last) == (ChainRunView {
                                        spawned: Seq::empty(),
                                        missing_operand: false,
                                    }));
                                }
                            }
                            st.pos = chain.elements.len();
                            return StepAction::Done;
                        } else {
                            proof {
                                assert(tail.drop_first() =~= chain@.skip(st.pos + 1 as int));
                                assert(count_cmds(tail) == count_cmds(tail.drop_first()));
                                assert forall|outs: Seq<Option<bool>>|
                                    #[trigger] spec_run(chain@.skip(pos0 as int), outs, last0)
                                        == spec_run(
                                        chain@.skip(st.pos + 1 as int),
                                        outs,
                                        None,
                                    ) by {
                                    assert(spec_run(tail, outs, st.last) == spec_run(
                                        tail.drop_first(),
                                        outs,
                                        None,
                                    ));
                                }
                            }
                            st.last = None;
                            st.pos = st.pos + 1;
                        }
                    },
                }
            },
        }
    }
}

/// Stores the outcome the process layer reported for the command the
/// evaluator just asked to run, and moves past that command.
pub fn record_outcome(st: &mut EvalState, outcome: Option<bool>)
    requires
        old(st).pos < usize::MAX,
    ensures
        final(st).pos == old(st).pos + 1,
        final(st).last == outcome,
{
    st.pos = st.pos + 1;
    st.last = outcome;
}

fn run_chain_from(chain: &Chain, outs: &Vec<Option<bool>>, from: usize) -> (r: (ChainRun, usize))
    requires
        from <= outs@.len(),
        count_cmds(chain@) <= outs@.len() - from,
    ensures
        r.0@ == spec_run(chain@, outs@.skip(from as int), None),
        from <= r.1 <= outs@.len(),
        r.1 - from == r.0@.spawned.len(),
{
    let mut st = EvalState::start();
    let mut spawned: Vec<Cmd> = Vec::new();
    let mut k: usize = from;
    proof {
        assert(chain@.skip(0) =~= chain@);
        assert(spawned.deep_view() + spec_run(chain@, outs@.skip(from as int), None).spawned
            =~= spec_run(chain@, outs@.skip(from as int), None).spawned);
    }
    loop
        invariant
            st.pos <= chain@.len(),
            from <= k <= outs@.len(),
            count_cmds(chain@.skip(st.pos as int)) <= outs@.len() - k,
            spawned@.len() == k - from,
            spec_run(chain@, outs@.skip(from as int), None) == (ChainRunView {
                spawned: spawned.deep_view() + spec_run(
                    chain@.skip(st.pos as int),
                    outs@.skip(k as int),
                    st.last,
                ).spawned,
                missing_operand: spec_run(
                    chain@.skip(st.pos as int),
                    outs@.skip(k as int),
                    st.last,
                ).missing_operand,
            }),
        decreases chain@.len() - st.pos,
    {
        let ghost pos_before = st.pos;
        let ghost last_before = st.last;
        let a = advance(chain, &mut st);
        match a {
            StepAction::Done => {
                proof {
                    assert(spec_run(chain@.skip(pos_before as int), outs@.skip(k as int), last_before)
                        == (ChainRunView { spawned: Seq::empty(), missing_operand: false }));
                    assert(spawned.deep_view() + Seq::<CmdView>::empty() =~= spawned.deep_view());
                }
                return (ChainRun { spawned, missing_operand: false }, k);
            },
            StepAction::MissingOperand => {
                proof {
                    assert(spec_run(chain@.skip(pos_before as int), outs@.skip(k as int), last_before)
                        == (ChainRunView { spawned: Seq::empty(), missing_operand: true }));
                    assert(spawned.deep_view() + Seq::<CmdView>::empty() =~= spawned.deep_view());
                }
                return (ChainRun { spawned, missing_operand: true }, k);
            },
            StepAction::Run(c) => {
                let ghost npos = st.pos;
                let ghost tail = chain@.skip(npos as int);
                let ghost o = outs@.skip(k as int);
                proof {
                    assert(spec_run(chain@.skip(pos_before as int), o, last_before) == spec_run(
                        tail,
                        o,
                        st.last,
                    ));
                    assert(count_cmds(tail) == 1 + count_cmds(tail.drop_first()));
                    assert(o.len() == outs@.len() - k);
                    assert(o[0] == outs@[k as int]);
                    assert(tail.drop_first() =~= chain@.skip(npos + 1 as int));
                    assert(o.drop_first() =~= outs@.skip(k + 1 as int));
                }
                let n_elems = chain.elements.len();
                let n_outs = outs.len();
                proof {
                    assert(st.pos < chain@.len() && chain@.len() == n_elems);
                    assert(k < outs@.len() && outs@.len() == n_outs);
                }
                let out = outs[k];
                record_outcome(&mut st, out);
                let ghost spawned_before = spawned.deep_view();
                spawned.push(c);
                k = k + 1;
                proof {
                    assert(spawned.deep_view() =~~= spawned_before.push(
                        (ElemView::Cmd { cmd: chain@[npos as int]->cmd })->cmd,
                    ));
                    let sub = spec_run(chain@.skip(st.pos as int), outs@.skip(k as int), st.last);
                    assert(spec_run(tail, o, last_before) == (ChainRunView {
                        spawned: seq![chain@[npos as int]->cmd] + sub.spawned,
                        missing_operand: sub.missing_operand,
                    }));
                    assert(spawned_before + (seq![chain@[npos as int]->cmd] + sub.spawned)
                        =~= spawned.deep_view() + sub.spawned);
                }
            },
        }
    }
}

/// Evaluates one chain against a scripted sequence of outcomes: the `i`-th
/// spawned command receives `outs[i]`. This is the whole evaluator run at
/// once, for a driver (such as a test with a spy process layer) that knows
/// every outcome in advance.
pub fn run_chain(chain: &Chain, outs: &Vec<Option<bool>>) -> (r: ChainRun)
    requires
        count_cmds(chain@) <= outs@.len(),
    ensures
        r@ == spec_run(chain@, outs@, None),
{
    proof {
        assert(outs@.skip(0) =~= outs@);
    }
    let pair: (ChainRun, usize) = run_chain_from(chain, outs, 0);
    pair.0
}

impl Chain {
    /// How many command elements the chain holds: enough outcomes for a
    /// scripted evaluation to consume.
    pub fn count_commands(&self) -> (n: usize)
        ensures
            n == count_cmds(self@),
    {
        let ghost es = self@;
        let mut n: usize = 0;
        let mut i: usize = 0;
        proof {
            assert(es.skip(0) =~= es);
        }
        while i < self.elements.len()
            invariant
                self@ == es,
                es.len() == self.elements.len(),
                i <= es.len(),
                n <= i,
                n + count_cmds(es.skip(i as int)) == count_cmds(es),
            decreases es.len() - i,
        {
            proof {
                assert(es.skip(i as int)[0] == es[i as int]);
                assert(es[i as int] == self.elements@[i as int].deep_view());
                assert(es.skip(i as int).drop_first() =~= es.skip(i + 1 as int));
            }
            let e = &self.elements[i];
            match e {
                Element::Cmd(_) => {
                    n = n + 1;
                },
                Element::Op(_) => {},
            }
            i = i + 1;
        }
        proof {
            assert(es.skip(es.len() as int) =~= Seq::<ElemView>::empty());
        }
        n
    }
}

/// How many command elements a sequence of chains holds in all.
pub open spec fn count_cmds_all(cs: Seq<Seq<ElemView>>) -> nat
    decreases cs.len(),
{
    if cs.len() == 0 {
        0
    } else {
        count_cmds(cs[0]) + count_cmds_all(cs.drop_first())
    }
}

/// The evaluation of a sequence of chains, left to right, each from a fresh
/// state: each chain consumes one outcome per command it spawns, and the
/// next chain starts on the outcomes that are left.
pub open spec fn spec_run_chains(
    cs: Seq<Seq<ElemView>>,
    outs: Seq<Option<bool>>,
) -> Seq<ChainRunView>
    decreases cs.len(),
{
    if cs.len() == 0 {
        Seq::empty()
    } else {
        let r = spec_run(cs[0], outs, None);
        let rest_outs = if r.spawned.len() <= outs.len() {
            outs.skip(r.spawned.len() as int)
        } else {
            Seq::empty()
        };
        seq![r] + spec_run_chains(cs.drop_first(), rest_outs)
    }
}

/// The outcomes left for the chain at index `j`, after the chains before it
/// consumed one outcome per command they spawned.
pub open spec fn chain_outs(cs: Seq<Seq<ElemView>>, outs: Seq<Option<bool>>, j: int) -> Seq<
    Option<bool>,
>
    decreases cs.len(),
{
    if j <= 0 || cs.len() == 0 {
        outs
    } else {
        let r = spec_run(cs[0], outs, None);
        let rest_outs = if r.spawned.len() <= outs.len() {
            outs.skip(r.spawned.len() as int)
        } else {
            Seq::empty()
        };
        chain_outs(cs.drop_first(), rest_outs, j - 1)
    }
}

/// Chains are independent: evaluating a sequence of chains yields exactly
/// one result per chain, and the result at index `j` is the evaluation of
/// chain `j` alone, from a fresh state, on the outcomes left for it — no
/// matter how the chains before it ended.
pub proof fn lemma_chains_run_independently(cs: Seq<Seq<ElemView>>, outs: Seq<Option<bool>>)
    ensures
        spec_run_chains(cs, outs).len() == cs.len(),
        forall|j: int|
            0 <= j < cs.len() ==> #[trigger] spec_run_chains(cs, outs)[j] == spec_run(
                cs[j],
                chain_outs(cs, outs, j),
                None,
            ),
    decreases cs.len(),
{
    if cs.len() > 0 {
        let r = spec_run(cs[0], outs, None);
        let rest_outs = if r.spawned.len() <= outs.len() {
            outs.skip(r.spawned.len() as int)
        } else {
            Seq::empty()
        };
        lemma_chains_run_independently(cs.drop_first(), rest_outs);
        assert forall|j: int| 0 <= j < cs.len() implies #[trigger] spec_run_chains(cs, outs)[j]
            == spec_run(cs[j], chain_outs(cs, outs, j), None) by {
            if j > 0 {
                assert(spec_run_chains(cs, outs)[j] == spec_run_chains(cs.drop_first(), rest_outs)[j
                    - 1]);
                assert(chain_outs(cs, outs, j) == chain_outs(cs.drop_first(), rest_outs, j - 1));
            }
        }
    }
}

/// Evaluates every chain of a parsed line, in order, against a scripted
/// sequence of outcomes shared by all of them: each spawned command, across
/// all chains, receives the next outcome. Every chain is evaluated — an
/// earlier chain's failure, short-circuit or abort never suppresses a later
/// chain.
pub fn run_chains(chains: &Vec<Chain>, outs: &Vec<Option<bool>>) -> (rs: Vec<ChainRun>)
    requires
        count_cmds_all(chains.deep_view()) <= outs@.len(),
    ensures
        rs.deep_view() == spec_run_chains(chains.deep_view(), outs@),
        rs@.len() == chains@.len(),
{
    let ghost cs = chains.deep_view();
    let mut rs: Vec<ChainRun> = Vec::new();
    let mut i: usize = 0;
    let mut k: usize = 0;
    proof {
        assert(cs.skip(0) =~= cs);
        assert(outs@.skip(0) =~= outs@);
        assert(rs.deep_view() + spec_run_chains(cs, outs@) =~= spec_run_chains(cs, outs@));
    }
    while i < chains.len()
        invariant
            chains.deep_view() == cs,
            cs.len() == chains.len(),
            rs@.len() == i,
            i <= chains.len(),
            k <= outs@.len(),
            count_cmds_all(cs.skip(i as int)) <= outs@.len() - k,
            spec_run_chains(cs, outs@) == rs.deep_view() + spec_run_chains(
                cs.skip(i as int),
                outs@.skip(k as int),
            ),
        decreases chains.len() - i,
    {
        let ghost rest = cs.skip(i as int);
        let ghost o = outs@.skip(k as int);
        proof {
            assert(rest[0] == cs[i as int]);
            assert(cs[i as int] == chains@[i as int].deep_view());
            assert(count_cmds_all(rest) == count_cmds(rest[0]) + count_cmds_all(rest.drop_first()));
            assert(o.len() == outs@.len() - k);
        }
        let c = &chains[i];
        let pair: (ChainRun, usize) = run_chain_from(c, outs, k);
        let ghost r = spec_run(rest[0], o, None);
        proof {
            lemma_spawned_le_count(rest[0], o, None);
            assert(pair.0@ == r);
            assert(rest.drop_first() =~= cs.skip(i + 1 as int));
            assert(o.skip(r.spawned.len() as int) =~= outs@.skip(pair.1 as int));
        }
        let ghost rs_before = rs.deep_view();
        rs.push(pair.0);
        k = pair.1;
        i = i + 1;
        proof {
            assert(rs.deep_view() =~~= rs_before.push(r));
            assert(rs_before + (seq![r] + spec_run_chains(cs.skip(i as int), outs@.skip(k as int)))
                =~= rs.deep_view() + spec_run_chains(cs.skip(i as int), outs@.skip(k as int)));
        }
    }
    proof {
        assert(cs.skip(chains.len() as int) =~= Seq::<Seq<ElemView>>::empty());
        assert(rs.deep_view() + Seq::<ChainRunView>::empty() =~= rs.deep_view());
    }
    rs
}

/// With a command before it, `&&` is a conjunction: when the first command
/// succeeds, the command after the operator is spawned too; when it fails,
/// that command is never spawned. Either way the chain is not aborted.
pub proof fn lemma_and_short_circuit(
    x: CmdView,
    y: CmdView,
    first: bool,
    rest: Seq<Option<bool>>,
)
    ensures
        ({
            let es = seq![
                ElemView::Cmd { cmd: x },
                ElemView::Op { op: Operator::And },
                ElemView::Cmd { cmd: y },
            ];
            let outs = seq![Some(first)] + rest;
            &&& first ==> spec_run(es, outs, None).spawned == seq![x, y]
            &&& !first ==> spec_run(es, outs, None).spawned == seq![x]
            &&& !spec_run(es, outs, None).missing_operand
        }),
{
    let es = seq![
        ElemView::Cmd { cmd: x },
        ElemView::Op { op: Operator::And },
        ElemView::Cmd { cmd: y },
    ];
    let outs = seq![Some(first)] + rest;
    let es1 = seq![ElemView::Op { op: Operator::And }, ElemView::Cmd { cmd: y }];
    let es2 = seq![ElemView::Cmd { cmd: y }];
    reveal_with_fuel(spec_run, 4);
    assert(es.drop_first() =~= es1);
    assert(es1.drop_first() =~= es2);
    assert(outs[0] == Some(first));
    assert(outs.drop_first() =~= rest);
    assert(spec_run(es, outs, None).spawned =~= seq![x] + spec_run(es1, rest, Some(first)).spawned);
    if first {
        assert(spec_run(es1, rest, Some(first)) == spec_run(es2, rest, None));
        assert(es2.drop_first() =~= Seq::<ElemView>::empty());
        assert(spec_run(es2, rest, None).spawned =~= seq![y]);
        assert(spec_run(es, outs, None).spawned =~= seq![x, y]);
    } else {
        assert(spec_run(es1, rest, Some(first)) == (ChainRunView {
            spawned: Seq::empty(),
            missing_operand: false,
        }));
        assert(spec_run(es, outs, None).spawned =~= seq![x]);
    }
}

/// With a command before it, `||` is a disjunction: when the first command
/// fails, the command after the operator is spawned; when it succeeds, that
/// command is never spawned. Either way the chain is not aborted.
pub proof fn lemma_or_short_circuit(x: CmdView, y: CmdView, first: bool, rest: Seq<Option<bool>>)
    ensures
        ({
            let es = seq![
                ElemView::Cmd { cmd: x },
                ElemView::Op { op: Operator::Or },
                ElemView::Cmd { cmd: y },
            ];
            let outs = seq![Some(first)] + rest;
            &&& !first ==> spec_run(es, outs, None).spawned == seq![x, y]
            &&& first ==> spec_run(es, outs, None).spawned == seq![x]
            &&& !spec_run(es, outs, None).missing_operand
        }),
{
    let es = seq![
        ElemView::Cmd { cmd: x },
        ElemView::Op { op: Operator::Or },
        ElemView::Cmd { cmd: y },
    ];
    let outs = seq![Some(first)] + rest;
    let es1 = seq![ElemView::Op { op: Operator::Or }, ElemView::Cmd { cmd: y }];
    let es2 = seq![ElemView::Cmd { cmd: y }];
    reveal_with_fuel(spec_run, 4);
    assert(es.drop_first() =~= es1);
    assert(es1.drop_first() =~= es2);
    assert(outs[0] == Some(first));
    assert(outs.drop_first() =~= rest);
    assert(spec_run(es, outs, None).spawned =~= seq![x] + spec_run(es1, rest, Some(first)).spawned);
    if !first {
        assert(spec_run(es1, rest, Some(first)) == spec_run(es2, rest, None));
        assert(es2.drop_first() =~= Seq::<ElemView>::empty());
        assert(spec_run(es2, rest, None).spawned =~= seq![y]);
        assert(spec_run(es, outs, None).spawned =~= seq![x, y]);
    } else {
        assert(spec_run(es1, rest, Some(first)) == (ChainRunView {
            spawned: Seq::empty(),
            missing_operand: false,
        }));
        assert(spec_run(es, outs, None).spawned =~= seq![x]);
    }
}

/// A chain that begins with `&&` or `||` has no command result to consult:
/// it raises the missing-operand error and never spawns anything, whatever
/// outcomes the process layer would have reported.
pub proof fn lemma_leading_operator_aborts(es: Seq<ElemView>, outs: Seq<Option<bool>>)
    requires
        es.len() > 0,
        es[0] matches ElemView::Op { op } && op != Operator::Sequence,
    ensures
        spec_run(es, outs, None) == (ChainRunView {
            spawned: Seq::empty(),
            missing_operand: true,
        }),
{
}

} // verus!

