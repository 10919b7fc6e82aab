//! The command dispatcher of the named-node layer.
//!
//! A collaborator (a prompt loop, say) hands over a line already split into
//! tokens; recognizing the command forms and driving the hive is the
//! layer's own job.  Recognized forms, first match winning:
//! `A > B` / `B < A` (pipes, chainable), `delete <name>` / `d <name>`,
//! `undo [n]`, `redo [n]`, `pile <n>`, `clear`, `quit`.

use vstd::prelude::*;

use crate::graph::EdgeIndex;
use crate::hive::{
    tr_pile, tr_pipe, tr_redo, tr_remove_edge, tr_remove_node, tr_undo, HState, Hive,
};

verus! {

/// One action of a command line: connect two named nodes, or delete by
/// name or edge id.
pub enum Step {
    Pipe(String, String),
    Delete(String),
}

/// The mathematical shape of a `Step`.
pub ghost enum StepV {
    Pipe(Seq<char>, Seq<char>),
    Delete(Seq<char>),
}

impl View for Step {
    type V = StepV;

    open spec fn view(&self) -> StepV {
        match self {
            Step::Pipe(a, b) => StepV::Pipe(a@, b@),
            Step::Delete(t) => StepV::Delete(t@),
        }
    }
}

/// One parsed command line.
pub enum Command {
    Actions(Vec<Step>),
    Undo(usize),
    Redo(usize),
    Pile(usize),
    Clear,
    Quit,
}

/// The mathematical shape of a `Command`.
pub ghost enum CommandV {
    Actions(Seq<StepV>),
    Undo(usize),
    Redo(usize),
    Pile(usize),
    Clear,
    Quit,
}

impl View for Command {
    type V = CommandV;

    open spec fn view(&self) -> CommandV {
        match self {
            Command::Actions(steps) => CommandV::Actions(
                steps@.map_values(|s: Step| s@),
            ),
            Command::Undo(n) => CommandV::Undo(*n),
            Command::Redo(n) => CommandV::Redo(*n),
            Command::Pile(n) => CommandV::Pile(*n),
            Command::Clear => CommandV::Clear,
            Command::Quit => CommandV::Quit,
        }
    }
}

/// A decimal digit.
pub open spec fn is_digit(c: char) -> bool {
    48 <= c as int <= 57
}

/// A nonempty string of decimal digits.
pub open spec fn all_digits(s: Seq<char>) -> bool {
    s.len() > 0 && forall|i: int| 0 <= i < s.len() ==> is_digit(#[trigger] s[i])
}

/// The number a digit string denotes.
pub open spec fn digits_val(s: Seq<char>) -> int
    decreases s.len(),
{
    if s.len() == 0 {
        0
    } else {
        digits_val(s.drop_last()) * 10 + (s.last() as int - 48)
    }
}

/// A digit string's value is nonnegative.
pub proof fn lemma_digits_val_nonneg(s: Seq<char>)
    requires
        forall|i: int| 0 <= i < s.len() ==> is_digit(#[trigger] s[i]),
    ensures
        digits_val(s) >= 0,
    decreases s.len(),
{
    if s.len() > 0 {
        assert forall|i: int|
            0 <= i < s.drop_last().len() implies is_digit(#[trigger] s.drop_last()[i]) by {
            assert(s.drop_last()[i] == s[i]);
        }
        lemma_digits_val_nonneg(s.drop_last());
        assert(s.contains(s.last())) by {
            assert(s[s.len() - 1] == s.last());
        }
    }
}

/// A digit string is worth at least any of its prefixes.
pub proof fn lemma_digits_val_prefix(s: Seq<char>, k: int)
    requires
        forall|i: int| 0 <= i < s.len() ==> is_digit(#[trigger] s[i]),
        0 <= k <= s.len(),
    ensures
        digits_val(s) >= digits_val(s.take(k)),
    decreases s.len() - k,
{
    if k < s.len() {
        lemma_digits_val_prefix(s, k + 1);
        assert(s.take(k + 1).drop_last() =~= s.take(k));
        assert(s.take(k + 1).last() == s[k]);
        assert forall|i: int| 0 <= i < s.take(k).len() implies is_digit(
            #[trigger] s.take(k)[i],
        ) by {
            assert(s.take(k)[i] == s[i]);
        }
        lemma_digits_val_nonneg(s.take(k));
        assert(digits_val(s.take(k + 1)) == digits_val(s.take(k)) * 10 + (s[k] as int - 48));
        assert(digits_val(s.take(k)) * 10 >= digits_val(s.take(k))) by (nonlinear_arith)
            requires
                digits_val(s.take(k)) >= 0,
        {}
    } else {
        assert(s.take(k) =~= s);
    }
}

/// Reads a decimal number, exactly when the whole token is digits and the
/// value fits the machine.
#[verifier::loop_isolation(false)]
pub fn parse_usize(s: &str) -> (r: Option<usize>)
    ensures
        r is Some ==> all_digits(s@) && digits_val(s@) == r->Some_0 as int,
        r is None ==> !all_digits(s@) || digits_val(s@) > usize::MAX as int,
{
    let n = s.unicode_len();
    if n == 0 {
        return None;
    }
    let mut acc: usize = 0;
    let mut i: usize = 0;
    while i < n
        invariant
            i <= n,
            forall|j: int| 0 <= j < i ==> is_digit(#[trigger] s@[j]),
            acc as int == digits_val(s@.take(i as int)),
        decreases n - i,
    {
        let c = s.get_char(i);
        let cu: u32 = c as u32;
        if cu < 48 || cu > 57 {
            proof {
                assert(!is_digit(s@[i as int]));
            }
            return None;
        }
        let d: usize = (cu - 48) as usize;
        if acc > (usize::MAX - d) / 10 {
            proof {
                // the value already exceeds the machine here
                assert(acc * 10 + d > usize::MAX) by (nonlinear_arith)
                    requires
                        acc > (usize::MAX - d) / 10,
                        d <= 9,
                {}
                assert(s@.take(i + 1).drop_last() =~= s@.take(i as int));
                assert(s@.take(i + 1).last() == s@[i as int]);
                assert(digits_val(s@.take(i + 1)) == acc * 10 + d);
                if all_digits(s@) {
                    lemma_digits_val_prefix(s@, i + 1);
                    assert(s@.take(s@.len() as int) =~= s@);
                }
            }
            return None;
        }
        proof {
            assert(acc * 10 + d <= usize::MAX) by (nonlinear_arith)
                requires
                    acc <= (usize::MAX - d) / 10,
                    d <= 9,
            {}
            assert(s@.take(i + 1).drop_last() =~= s@.take(i as int));
            assert(s@.take(i + 1).last() == s@[i as int]);
        }
        acc = acc * 10 + d;
        i += 1;
    }
    proof {
        assert(s@.take(n as int) =~= s@);
    }
    Some(acc)
}

/// The steps denoted by the tokens from position `i` on, if they parse.
pub open spec fn spec_parse_actions(toks: Seq<Seq<char>>, i: int) -> Option<Seq<StepV>>
    decreases toks.len() - i, 0int,
{
    if i < 0 || i > toks.len() {
        None
    } else if i == toks.len() {
        Some(Seq::empty())
    } else if i + 1 < toks.len() && (toks[i + 1] == ">"@ || toks[i + 1] == "<"@) {
        spec_parse_chain(toks, toks[i], i + 1)
    } else if (toks[i] == "delete"@ || toks[i] == "d"@) && i + 1 < toks.len() {
        match spec_parse_actions(toks, i + 2) {
            Some(rest) => Some(seq![StepV::Delete(toks[i + 1])] + rest),
            None => None,
        }
    } else {
        None
    }
}

/// A pipe chain continuing at position `j` with `a` as the pending name.
pub open spec fn spec_parse_chain(toks: Seq<Seq<char>>, a: Seq<char>, j: int) -> Option<
    Seq<StepV>,
>
    decreases toks.len() - j, 1int,
{
    if j < 0 || j >= toks.len() || !(toks[j] == ">"@ || toks[j] == "<"@) {
        spec_parse_actions(toks, j)
    } else if j + 1 < toks.len() {
        let b = toks[j + 1];
        let step = if toks[j] == ">"@ {
            StepV::Pipe(a, b)
        } else {
            StepV::Pipe(b, a)
        };
        match spec_parse_chain(toks, b, j + 2) {
            Some(rest) => Some(seq![step] + rest),
            None => None,
        }
    } else {
        None
    }
}

/// The command a token line denotes, if any: an action sequence wins, then
/// the history forms.
pub open spec fn spec_parse(toks: Seq<Seq<char>>) -> Option<CommandV> {
    if toks.len() == 0 {
        None
    } else if spec_parse_actions(toks, 0) is Some {
        Some(CommandV::Actions(spec_parse_actions(toks, 0)->Some_0))
    } else if toks[0] == "undo"@ && toks.len() == 1 {
        Some(CommandV::Undo(1))
    } else if toks[0] == "undo"@ && toks.len() == 2 && all_digits(toks[1]) && digits_val(toks[1])
        <= usize::MAX as int {
        Some(CommandV::Undo(digits_val(toks[1]) as usize))
    } else if toks[0] == "redo"@ && toks.len() == 1 {
        Some(CommandV::Redo(1))
    } else if toks[0] == "redo"@ && toks.len() == 2 && all_digits(toks[1]) && digits_val(toks[1])
        <= usize::MAX as int {
        Some(CommandV::Redo(digits_val(toks[1]) as usize))
    } else if toks[0] == "pile"@ && toks.len() == 2 && all_digits(toks[1]) && digits_val(toks[1])
        <= usize::MAX as int {
        Some(CommandV::Pile(digits_val(toks[1]) as usize))
    } else if toks[0] == "clear"@ && toks.len() == 1 {
        Some(CommandV::Clear)
    } else if toks[0] == "quit"@ && toks.len() == 1 {
        Some(CommandV::Quit)
    } else {
        None
    }
}

/// The views of a token line.
pub open spec fn tok_views(tokens: Seq<String>) -> Seq<Seq<char>> {
    tokens.map_values(|t: String| t@)
}

fn parse_actions_from(tokens: &Vec<String>, i: usize) -> (r: Option<Vec<Step>>)
    requires
        i <= tokens@.len(),
    ensures
        r is Some ==> spec_parse_actions(tok_views(tokens@), i as int) == Some(
            r->Some_0@.map_values(|s: Step| s@),
        ),
        r is None ==> spec_parse_actions(tok_views(tokens@), i as int) is None,
    decreases tokens@.len() - i, 0int,
{
    let ghost toks = tok_views(tokens@);
    if i == tokens.len() {
        let r: Vec<Step> = Vec::new();
        proof {
            assert(r@.map_values(|s: Step| s@) =~= Seq::<StepV>::empty());
        }
        return Some(r);
    }
    let gt = String::from_str(">");
    let lt = String::from_str("<");
    if i + 1 < tokens.len() && (tokens[i + 1] == gt || tokens[i + 1] == lt) {
        let a = tokens[i].clone();
        proof {
            assert(a@ == toks[i as int]);
        }
        return parse_chain_from(tokens, a, i + 1);
    }
    let del = String::from_str("delete");
    let dl = String::from_str("d");
    if (tokens[i] == del || tokens[i] == dl) && i + 1 < tokens.len() {
        let name = tokens[i + 1].clone();
        match parse_actions_from(tokens, i + 2) {
            Some(rest) => {
                let mut out: Vec<Step> = Vec::new();
                out.push(Step::Delete(name));
                let mut rest = rest;
                let ghost restv = rest@;
                out.append(&mut rest);
                proof {
                    assert(out@.map_values(|s: Step| s@) =~= seq![
                        StepV::Delete(toks[i + 1]),
                    ] + restv.map_values(|s: Step| s@));
                }
                return Some(out);
            },
            None => {
                return None;
            },
        }
    }
    None
}

fn parse_chain_from(tokens: &Vec<String>, a: String, j: usize) -> (r: Option<Vec<Step>>)
    requires
        j <= tokens@.len(),
    ensures
        r is Some ==> spec_parse_chain(tok_views(tokens@), a@, j as int) == Some(
            r->Some_0@.map_values(|s: Step| s@),
        ),
        r is None ==> spec_parse_chain(tok_views(tokens@), a@, j as int) is None,
    decreases tokens@.len() - j, 1int,
{
    let ghost toks = tok_views(tokens@);
    let gt = String::from_str(">");
    let lt = String::from_str("<");
    if j >= tokens.len() || !(tokens[j] == gt || tokens[j] == lt) {
        return parse_actions_from(tokens, j);
    }
    if j + 1 < tokens.len() {
        let b = tokens[j + 1].clone();
        let step = if tokens[j] == gt {
            Step::Pipe(a, b.clone())
        } else {
            Step::Pipe(b.clone(), a)
        };
        match parse_chain_from(tokens, b, j + 2) {
            Some(rest) => {
                let ghost stepv = step@;
                let mut out: Vec<Step> = Vec::new();
                out.push(step);
                let mut rest = rest;
                let ghost restv = rest@;
                out.append(&mut rest);
                proof {
                    assert(out@.map_values(|s: Step| s@) =~= seq![stepv] + restv.map_values(
                        |s: Step| s@,
                    ));
                }
                return Some(out);
            },
            None => {
                return None;
            },
        }
    }
    None
}

/// Parses one token line into a command, exactly when the line matches one
/// of the recognized forms.
pub fn parse_command(tokens: &Vec<String>) -> (r: Option<Command>)
    ensures
        r is Some ==> spec_parse(tok_views(tokens@)) == Some(r->Some_0@),
        r is None ==> spec_parse(tok_views(tokens@)) is None,
{
    let ghost toks = tok_views(tokens@);
    if tokens.len() == 0 {
        return None;
    }
    match parse_actions_from(tokens, 0) {
        Some(steps) => {
            return Some(Command::Actions(steps));
        },
        None => {},
    }
    let undo_t = String::from_str("undo");
    let redo_t = String::from_str("redo");
    let pile_t = String::from_str("pile");
    let clear_t = String::from_str("clear");
    let quit_t = String::from_str("quit");
    if tokens[0] == undo_t && tokens.len() == 1 {
        return Some(Command::Undo(1));
    }
    if tokens[0] == undo_t && tokens.len() == 2 {
        match parse_usize(tokens[1].as_str()) {
            Some(n) => {
                return Some(Command::Undo(n));
            },
            None => {
                return None;
            },
        }
    }
    if tokens[0] == redo_t && tokens.len() == 1 {
        return Some(Command::Redo(1));
    }
    if tokens[0] == redo_t && tokens.len() == 2 {
        match parse_usize(tokens[1].as_str()) {
            Some(n) => {
                return Some(Command::Redo(n));
            },
            None => {
                return None;
            },
        }
    }
    if tokens[0] == pile_t && tokens.len() == 2 {
        match parse_usize(tokens[1].as_str()) {
            Some(n) => {
                return Some(Command::Pile(n));
            },
            None => {
                return None;
            },
        }
    }
    if tokens[0] == clear_t && tokens.len() == 1 {
        return Some(Command::Clear);
    }
    if tokens[0] == quit_t && tokens.len() == 1 {
        return Some(Command::Quit);
    }
    None
}

/// A step of a command line never flips the suppression flag.
pub proof fn lemma_tr_step_pause_const(s: HState, st: StepV)
    ensures
        tr_step(s, st).pause == s.pause,
{
    match st {
        StepV::Pipe(a, b) => {},
        StepV::Delete(t) => {
            if !(all_digits(t) && digits_val(t) <= usize::MAX as int && s.edges.contains_key(
                EdgeIndex(digits_val(t) as usize),
            )) {
                if s.names.contains_key(t) {
                    let v = s.names[t];
                    let q = crate::hive::desc_of(crate::hive::incident_set(s.edges, v));
                    crate::hive::lemma_tr_remove_edges_pause_const(s, q);
                }
            }
        },
    }
}

/// One step of a command line against the hive: a pipe connects by name; a
/// delete removes the edge whose id the token spells if such an edge is
/// live, else the node of that name.
pub open spec fn tr_step(s: HState, st: StepV) -> HState {
    match st {
        StepV::Pipe(a, b) => tr_pipe(s, a, b),
        StepV::Delete(t) => if all_digits(t) && digits_val(t) <= usize::MAX as int
            && s.edges.contains_key(EdgeIndex(digits_val(t) as usize)) {
            tr_remove_edge(s, EdgeIndex(digits_val(t) as usize))
        } else {
            tr_remove_node(s, t)
        },
    }
}

/// A whole action sequence, left to right.
pub open spec fn tr_steps(s: HState, sts: Seq<StepV>) -> HState
    decreases sts.len(),
{
    if sts.len() == 0 {
        s
    } else {
        tr_steps(tr_step(s, sts[0]), sts.subrange(1, sts.len() as int))
    }
}

/// A whole command against the hive.  An action sequence is piled into one
/// undo step; `pile n` merges the last `n` log entries.
pub open spec fn tr_command(s: HState, c: CommandV) -> HState {
    match c {
        CommandV::Actions(sts) => tr_pile(tr_steps(s, sts), s.hist.len() as int),
        CommandV::Undo(n) => tr_undo(s, n as int),
        CommandV::Redo(n) => tr_redo(s, n as int),
        CommandV::Pile(n) => tr_pile(
            s,
            if s.hist.len() < n as int {
                0
            } else {
                s.hist.len() - n as int
            },
        ),
        CommandV::Clear => crate::hive::tr_clear(s),
        CommandV::Quit => s,
    }
}

/// Runs one parsed command against the hive; reports whether the session
/// should end — the caller then tears the session down with `Hive::clear`,
/// whose result it must check — and how many undo or redo steps were
/// unavailable.
#[verifier::loop_isolation(false)]
#[verifier::rlimit(30)]
pub fn run_command(hive: &mut Hive, cmd: Command) -> (r: (bool, usize))
    requires
        old(hive).wf(),
        !old(hive).undo.pause,
    ensures
        final(hive).wf(),
        final(hive).st() == tr_command(old(hive).st(), cmd@),
        r.0 == (cmd@ is Quit),
        r.1 == (match cmd@ {
            CommandV::Undo(n) => n - crate::hive::tr_undo_steps(old(hive).st(), n as int),
            CommandV::Redo(n) => n - crate::hive::tr_redo_count(
                HState { pause: true, ..old(hive).st() },
                n as int,
            ),
            _ => 0int,
        }),
    {
    match cmd {
        Command::Actions(steps) => {
            let ghost allv = steps@.map_values(|s: Step| s@);
            let snapshot = hive.undo.snapshot();
            let ghost s0 = hive.st();
            proof {
                assert(allv.skip(0) =~= allv);
            }
            let mut k: usize = 0;
            while k < steps.len()
                invariant
                    k <= steps@.len(),
                    hive.wf(),
                    !hive.undo.pause,
                    tr_steps(s0, allv) == tr_steps(hive.st(), allv.skip(k as int)),
                decreases steps@.len() - k,
            {
                let ghost pre = hive.st();
                match &steps[k] {
                    Step::Pipe(a, b) => {
                        hive.pipe(a.as_str(), b.as_str());
                    },
                    Step::Delete(t) => {
                        let removed = match parse_usize(t.as_str()) {
                            Some(id) => hive.delete_edge(id),
                            None => false,
                        };
                        if !removed {
                            proof {
                                // a failed edge delete leaves the hive as it
                                // was, so falling back to the name is exact
                                if all_digits(t@) && digits_val(t@) <= usize::MAX as int {
                                    assert(hive.st() == pre);
                                }
                            }
                            hive.remove_node(t.as_str());
                        }
                    },
                }
                proof {
                    assert(allv.skip(k as int)[0] == allv[k as int]);
                    assert(allv.skip(k as int).subrange(1, allv.skip(k as int).len() as int)
                        =~= allv.skip(k + 1));
                    assert(hive.st() == tr_step(pre, allv[k as int])) by {
                        assert(allv[k as int] == steps@[k as int]@);
                    }
                    lemma_tr_step_pause_const(pre, allv[k as int]);
                }
                k += 1;
            }
            proof {
                assert(allv.skip(allv.len() as int) =~= Seq::<StepV>::empty());
            }
            hive.undo.pile(snapshot);
            proof {
                assert(hive.wf());
            }
            (false, 0)
        },
        Command::Undo(n) => {
            let ignored = hive.undo(n);
            proof {
                assert(hive.wf());
            }
            (false, ignored)
        },
        Command::Redo(n) => {
            let ignored = hive.redo(n);
            proof {
                assert(hive.wf());
            }
            (false, ignored)
        },
        Command::Pile(n) => {
            let len = hive.undo.snapshot();
            let snapshot = if n > len {
                0
            } else {
                len - n
            };
            hive.undo.pile(snapshot);
            proof {
                assert(hive.graph == old(hive).graph && hive.nodes == old(hive).nodes);
                assert(hive.undo.wf());
                assert(hive.wf());
            }
            (false, 0)
        },
        Command::Clear => {
            hive.clear();
            proof {
                assert(hive.wf());
            }
            (false, 0)
        },
        Command::Quit => {
            (true, 0)
        },
    }
}

} // verus!
