//! Tape machine: validator and simulator.
//!
//! Validation demands a tape alphabet and a blank symbol, and on every
//! transition exactly one write operation and one direction; a later
//! transition for a key already filled silently replaces the earlier one.
//! Execution writes the input onto an unbounded tape and follows the table
//! until no transition applies (reject) or a final state is reached
//! (accept).  A machine may legitimately run forever; the simulator stops
//! after an enormous number of steps and then rejects, which is the
//! documented safety valve.

use vstd::prelude::*;
use crate::Span;
use crate::parser::{
    PartialMachineInfo, PartialMachineInfoView, SectionName, StackTransition, TransitionInfo,
    token_str, pm_in_bounds,
};
use crate::parser::Direction as ParserDirection;
use crate::machine::{
    texts_of, texts_view, find_text, intern, intern_tokens, lemma_find_text, spec_mark_finals,
    mark_finals, find_char_symbol, find_vec, find_symbol_char, eps_text,
};

verus! {

#[derive(Debug, Clone, Copy, PartialEq, Eq)]
pub enum InfoError {
    /// A state mentioned outside the declared set.
    UnknownState { at: Span },
    /// A tape symbol outside the declared tape alphabet.
    UnknownTapeSymbol { at: Span },
    /// A required field is absent: the tape alphabet, the blank symbol, or a
    /// transition's direction.
    MissingSection { section: SectionName },
    /// A transition without a write operation.
    MissingTapeOperation,
}

/// A resolved table key: state index and tape-symbol index.
#[derive(Debug, Clone, Copy, PartialEq, Eq)]
pub struct TMTransitionFrom {
    pub initial: usize,
    pub with_symbol: usize,
}

/// Which way the head moves after a write.
#[derive(Debug, Clone, Copy, PartialEq, Eq)]
pub enum Direction {
    Left,
    Right,
}

/// A resolved table entry: destination state, symbol to write, head move.
#[derive(Debug, Clone, Copy, PartialEq, Eq)]
pub struct TMTransitionTo {
    pub state: usize,
    pub write_symbol: usize,
    pub direction: Direction,
}

/// The mathematical shape of a validated tape machine.  `tape_symbols` is
/// the cell-symbol table: the declared tape alphabet, the reserved "ε", and
/// the blank symbol, each once.
pub struct InfoView {
    pub states: Seq<Seq<char>>,
    pub alphabet: Seq<Seq<char>>,
    pub tape_symbols: Seq<Seq<char>>,
    pub transitions: Seq<Seq<Option<TMTransitionTo>>>,
    pub start_state: int,
    pub final_states: Seq<bool>,
    pub blank_symbol: usize,
}

impl InfoView {
    /// Soundness: one row per state, one column per cell symbol, every
    /// destination and write symbol in range.
    pub open spec fn wf(self) -> bool {
        &&& self.final_states.len() == self.states.len()
        &&& self.transitions.len() == self.states.len()
        &&& forall|s: int|
            0 <= s < self.transitions.len() ==> (#[trigger] self.transitions[s]).len()
                == self.tape_symbols.len()
        &&& 0 <= self.start_state < self.states.len()
        &&& (self.blank_symbol as int) < self.tape_symbols.len()
        &&& forall|s: int, c: int|
            0 <= s < self.states.len() && 0 <= c < self.tape_symbols.len() && (
            #[trigger] self.transitions[s][c]) is Some ==> ((self.transitions[s][c]->0).state as int)
                < self.states.len() && ((self.transitions[s][c]->0).write_symbol as int)
                < self.tape_symbols.len()
    }
}

/// The cell-symbol table: the tape alphabet, then "ε" when not declared,
/// then the blank symbol when not already present.
pub open spec fn cell_table(tape: Seq<Seq<char>>, blank: Seq<char>) -> Seq<Seq<char>> {
    let t1 = if tape.contains(eps_text()) {
        tape
    } else {
        tape.push(eps_text())
    };
    if t1.contains(blank) {
        t1
    } else {
        t1.push(blank)
    }
}

/// Folds raw transitions into the table: resolve the names, demand a write
/// operation and a direction, and let a later transition replace an earlier
/// one for the same key.
pub open spec fn spec_fold_tm(
    src: Seq<char>,
    states: Seq<Seq<char>>,
    tape0: Seq<Seq<char>>,
    cells: Seq<Seq<char>>,
    trs: Seq<TransitionInfo>,
    table: Seq<Seq<Option<TMTransitionTo>>>,
) -> Result<Seq<Seq<Option<TMTransitionTo>>>, InfoError>
    decreases trs.len(),
{
    if trs.len() == 0 {
        Ok(table)
    } else {
        let tr = trs[0];
        match find_text(states, token_str(src, tr.from.initial)) {
            None => Err(InfoError::UnknownState { at: tr.from.initial.span }),
            Some(si) => {
                let stext = token_str(src, tr.from.with_symbol);
                if stext != eps_text() && !tape0.contains(stext) {
                    Err(InfoError::UnknownTapeSymbol { at: tr.from.with_symbol.span })
                } else {
                    let ci = find_text(cells, stext)->0;
                    match find_text(states, token_str(src, tr.to.0)) {
                        None => Err(InfoError::UnknownState { at: tr.to.0.span }),
                        Some(ti) => match tr.to.1 {
                            Some(StackTransition::Write(wtok)) => {
                                let wtext = token_str(src, wtok);
                                if !tape0.contains(wtext) {
                                    Err(InfoError::UnknownTapeSymbol { at: wtok.span })
                                } else {
                                    let wi = find_text(cells, wtext)->0;
                                    match tr.to.2 {
                                        None => Err(
                                            InfoError::MissingSection {
                                                section: SectionName::Direction,
                                            },
                                        ),
                                        Some(d) => {
                                            let dir = match d {
                                                ParserDirection::Left => Direction::Left,
                                                ParserDirection::Right => Direction::Right,
                                            };
                                            spec_fold_tm(
                                                src,
                                                states,
                                                tape0,
                                                cells,
                                                trs.drop_first(),
                                                table.update(
                                                    si,
                                                    table[si].update(
                                                        ci,
                                                        Some(
                                                            TMTransitionTo {
                                                                state: ti as usize,
                                                                write_symbol: wi as usize,
                                                                direction: dir,
                                                            },
                                                        ),
                                                    ),
                                                ),
                                            )
                                        },
                                    }
                                }
                            },
                            Some(_) => Err(InfoError::MissingTapeOperation),
                            None => Err(InfoError::MissingTapeOperation),
                        },
                    }
                }
            },
        }
    }
}

/// An empty table over states and cell symbols.
pub open spec fn blank_tm_table(n: nat, w: nat) -> Seq<Seq<Option<TMTransitionTo>>> {
    Seq::new(n, |i: int| Seq::new(w, |j: int| None::<TMTransitionTo>))
}

/// What validating a description as a tape machine yields.
pub open spec fn spec_validate(m: PartialMachineInfoView, src: Seq<char>) -> Result<
    InfoView,
    InfoError,
> {
    let states = intern(texts_of(src, m.states));
    let alphabet = intern(texts_of(src, m.alphabet));
    match m.tape_alphabet {
        None => Err(InfoError::MissingSection { section: SectionName::TapeAlphabet }),
        Some(tape_toks) => match m.blank_symbol {
            None => Err(InfoError::MissingSection { section: SectionName::BlankSymbol }),
            Some(btok) => {
                let tape0 = intern(texts_of(src, tape_toks));
                let cells = cell_table(tape0, token_str(src, btok));
                match spec_mark_finals(
                    src,
                    states,
                    m.final_states,
                    Seq::new(states.len(), |i: int| false),
                ) {
                    Err(t) => Err(InfoError::UnknownState { at: t.span }),
                    Ok(finals) => match find_text(states, token_str(src, m.start_state)) {
                        None => Err(InfoError::UnknownState { at: m.start_state.span }),
                        Some(si) => match spec_fold_tm(
                            src,
                            states,
                            tape0,
                            cells,
                            m.transitions,
                            blank_tm_table(states.len(), cells.len()),
                        ) {
                            Err(e) => Err(e),
                            Ok(table) => Ok(
                                InfoView {
                                    states,
                                    alphabet,
                                    tape_symbols: cells,
                                    transitions: table,
                                    start_state: si,
                                    final_states: finals,
                                    blank_symbol: find_text(cells, token_str(src, btok))->0 as usize,
                                },
                            ),
                        },
                    },
                }
            },
        },
    }
}

/// Everything the tape alphabet declares, "ε", and the blank symbol are in
/// the cell table.
pub proof fn lemma_cell_table(tape: Seq<Seq<char>>, blank: Seq<char>)
    ensures
        forall|x: Seq<char>| tape.contains(x) ==> #[trigger] cell_table(tape, blank).contains(x),
        cell_table(tape, blank).contains(eps_text()),
        cell_table(tape, blank).contains(blank),
{
    let t1 = if tape.contains(eps_text()) {
        tape
    } else {
        tape.push(eps_text())
    };
    assert forall|x: Seq<char>| tape.contains(x) implies #[trigger] cell_table(
        tape,
        blank,
    ).contains(x) by {
        let k = choose|k: int| 0 <= k < tape.len() && tape[k] == x;
        assert(t1[k] == x);
        assert(t1.contains(x));
        assert(cell_table(tape, blank)[k] == x);
    }
    if !tape.contains(eps_text()) {
        assert(t1.last() == eps_text());
    }
    assert(t1.contains(eps_text()));
    let ke = choose|k: int| 0 <= k < t1.len() && t1[k] == eps_text();
    assert(cell_table(tape, blank)[ke] == eps_text());
    if !t1.contains(blank) {
        assert(cell_table(tape, blank).last() == blank);
    }
}

/// Shape and bounds of a (possibly partial) table.
pub open spec fn tm_table_shape_ok(table: Seq<Seq<Option<TMTransitionTo>>>, n: int, w: int) -> bool {
    &&& table.len() == n
    &&& forall|s: int| 0 <= s < n ==> (#[trigger] table[s]).len() == w
    &&& forall|s: int, c: int|
        0 <= s < n && 0 <= c < w && (#[trigger] table[s][c]) is Some ==> ((table[s][c]->0).state
            as int) < n && ((table[s][c]->0).write_symbol as int) < w
}

proof fn lemma_fold_tm_shape(
    src: Seq<char>,
    states: Seq<Seq<char>>,
    tape0: Seq<Seq<char>>,
    cells: Seq<Seq<char>>,
    trs: Seq<TransitionInfo>,
    table: Seq<Seq<Option<TMTransitionTo>>>,
)
    requires
        tm_table_shape_ok(table, states.len() as int, cells.len() as int),
        forall|x: Seq<char>| tape0.contains(x) ==> #[trigger] cells.contains(x),
        cells.contains(eps_text()),
    ensures
        spec_fold_tm(src, states, tape0, cells, trs, table) matches Ok(t2) ==> tm_table_shape_ok(
            t2,
            states.len() as int,
            cells.len() as int,
        ),
    decreases trs.len(),
{
    if trs.len() > 0 {
        let tr = trs[0];
        lemma_find_text(states, token_str(src, tr.from.initial));
        lemma_find_text(states, token_str(src, tr.to.0));
        let stext = token_str(src, tr.from.with_symbol);
        lemma_find_text(cells, stext);
        let si = find_text(states, token_str(src, tr.from.initial));
        let ti = find_text(states, token_str(src, tr.to.0));
        if si is Some && !(stext != eps_text() && !tape0.contains(stext)) && ti is Some {
            assert(cells.contains(stext));
            let ci = find_text(cells, stext)->0;
            match tr.to.1 {
                Some(StackTransition::Write(wtok)) => {
                    let wtext = token_str(src, wtok);
                    lemma_find_text(cells, wtext);
                    if tape0.contains(wtext) {
                        assert(cells.contains(wtext));
                        let wi = find_text(cells, wtext)->0;
                        match tr.to.2 {
                            None => {},
                            Some(d) => {
                                let dir = match d {
                                    ParserDirection::Left => Direction::Left,
                                    ParserDirection::Right => Direction::Right,
                                };
                                let t2 = table.update(
                                    si->0,
                                    table[si->0].update(
                                        ci,
                                        Some(
                                            TMTransitionTo {
                                                state: ti->0 as usize,
                                                write_symbol: wi as usize,
                                                direction: dir,
                                            },
                                        ),
                                    ),
                                );
                                assert(tm_table_shape_ok(
                                    t2,
                                    states.len() as int,
                                    cells.len() as int,
                                ));
                                lemma_fold_tm_shape(src, states, tape0, cells, trs.drop_first(), t2);
                            },
                        }
                    }
                },
                _ => {},
            }
        }
    }
}

/// A validated tape machine is structurally sound.
pub proof fn lemma_validate_wf(m: PartialMachineInfoView, src: Seq<char>)
    ensures
        spec_validate(m, src) matches Ok(iv) ==> iv.wf(),
{
    if m.tape_alphabet is Some && m.blank_symbol is Some {
        let states = intern(texts_of(src, m.states));
        let tape0 = intern(texts_of(src, m.tape_alphabet->0));
        let btext = token_str(src, m.blank_symbol->0);
        let cells = cell_table(tape0, btext);
        lemma_cell_table(tape0, btext);
        crate::machine::dfa::lemma_mark_finals_len(
            src,
            states,
            m.final_states,
            Seq::new(states.len(), |i: int| false),
        );
        lemma_find_text(states, token_str(src, m.start_state));
        lemma_find_text(cells, btext);
        assert(tm_table_shape_ok(
            blank_tm_table(states.len(), cells.len()),
            states.len() as int,
            cells.len() as int,
        ));
        lemma_fold_tm_shape(
            src,
            states,
            tape0,
            cells,
            m.transitions,
            blank_tm_table(states.len(), cells.len()),
        );
    }
}


proof fn lemma_fold_tm_mentions(
    src: Seq<char>,
    states: Seq<Seq<char>>,
    tape0: Seq<Seq<char>>,
    cells: Seq<Seq<char>>,
    trs: Seq<TransitionInfo>,
    table: Seq<Seq<Option<TMTransitionTo>>>,
)
    requires
        spec_fold_tm(src, states, tape0, cells, trs, table) is Ok,
    ensures
        forall|k: int|
            0 <= k < trs.len() ==> {
                let tr = #[trigger] trs[k];
                &&& states.contains(token_str(src, tr.from.initial))
                &&& states.contains(token_str(src, tr.to.0))
                &&& (tape0.contains(token_str(src, tr.from.with_symbol)) || token_str(
                    src,
                    tr.from.with_symbol,
                ) == eps_text())
                &&& (tr.to.1 matches Some(StackTransition::Write(tok)) ==> tape0.contains(
                    token_str(src, tok),
                ))
            },
    decreases trs.len(),
{
    if trs.len() > 0 {
        let tr = trs[0];
        lemma_find_text(states, token_str(src, tr.from.initial));
        lemma_find_text(states, token_str(src, tr.to.0));
        let si = find_text(states, token_str(src, tr.from.initial));
        let ti = find_text(states, token_str(src, tr.to.0));
        let stext = token_str(src, tr.from.with_symbol);
        if si is Some && !(stext != eps_text() && !tape0.contains(stext)) && ti is Some {
            let ci = find_text(cells, stext)->0;
            match tr.to.1 {
                Some(StackTransition::Write(wtok)) => {
                    let wtext = token_str(src, wtok);
                    if tape0.contains(wtext) {
                        let wi = find_text(cells, wtext)->0;
                        match tr.to.2 {
                            None => {},
                            Some(d) => {
                                let dir = match d {
                                    ParserDirection::Left => Direction::Left,
                                    ParserDirection::Right => Direction::Right,
                                };
                                let t2 = table.update(
                                    si->0,
                                    table[si->0].update(
                                        ci,
                                        Some(
                                            TMTransitionTo {
                                                state: ti->0 as usize,
                                                write_symbol: wi as usize,
                                                direction: dir,
                                            },
                                        ),
                                    ),
                                );
                                if spec_fold_tm(src, states, tape0, cells, trs.drop_first(), t2)
                                    is Ok {
                                    lemma_fold_tm_mentions(
                                        src,
                                        states,
                                        tape0,
                                        cells,
                                        trs.drop_first(),
                                        t2,
                                    );
                                    assert forall|k: int| 0 <= k < trs.len() implies {
                                        let tr2 = #[trigger] trs[k];
                                        &&& states.contains(token_str(src, tr2.from.initial))
                                        &&& states.contains(token_str(src, tr2.to.0))
                                        &&& (tape0.contains(token_str(src, tr2.from.with_symbol))
                                            || token_str(src, tr2.from.with_symbol) == eps_text())
                                        &&& (tr2.to.1 matches Some(StackTransition::Write(tok))
                                            ==> tape0.contains(token_str(src, tok)))
                                    } by {
                                        if k > 0 {
                                            assert(trs.drop_first()[k - 1] == trs[k]);
                                        }
                                    }
                                }
                            },
                        }
                    }
                },
                _ => {},
            }
        }
    }
}

/// Every state a validated description mentions is present in the declared
/// `states` list; every read symbol in the declared tape alphabet unless it
/// is the reserved "ε"; and every written symbol in the declared tape
/// alphabet.
pub proof fn lemma_validate_mentions_declared(m: PartialMachineInfoView, src: Seq<char>)
    requires
        spec_validate(m, src) is Ok,
    ensures
        texts_of(src, m.states).contains(token_str(src, m.start_state)),
        forall|k: int|
            0 <= k < m.final_states.len() ==> texts_of(src, m.states).contains(
                token_str(src, #[trigger] m.final_states[k]),
            ),
        forall|k: int|
            0 <= k < m.transitions.len() ==> {
                let tr = #[trigger] m.transitions[k];
                &&& texts_of(src, m.states).contains(token_str(src, tr.from.initial))
                &&& texts_of(src, m.states).contains(token_str(src, tr.to.0))
                &&& (texts_of(src, m.tape_alphabet->0).contains(token_str(src, tr.from.with_symbol))
                    || token_str(src, tr.from.with_symbol) == eps_text())
                &&& (tr.to.1 matches Some(StackTransition::Write(tok)) ==> texts_of(
                    src,
                    m.tape_alphabet->0,
                ).contains(token_str(src, tok)))
            },
{
    let states = intern(texts_of(src, m.states));
    let tape0 = intern(texts_of(src, m.tape_alphabet->0));
    let btext = token_str(src, m.blank_symbol->0);
    let cells = cell_table(tape0, btext);
    crate::machine::lemma_intern(texts_of(src, m.states));
    crate::machine::lemma_intern(texts_of(src, m.tape_alphabet->0));
    lemma_find_text(states, token_str(src, m.start_state));
    assert(states.contains(token_str(src, m.start_state)));
    let finals0 = Seq::new(states.len(), |i: int| false);
    crate::machine::dfa::lemma_mark_finals_mentions(src, states, m.final_states, finals0);
    assert forall|k: int| 0 <= k < m.final_states.len() implies texts_of(src, m.states).contains(
        token_str(src, #[trigger] m.final_states[k]),
    ) by {
        assert(states.contains(token_str(src, m.final_states[k])));
    }
    lemma_fold_tm_mentions(
        src,
        states,
        tape0,
        cells,
        m.transitions,
        blank_tm_table(states.len(), cells.len()),
    );
    assert forall|k: int| 0 <= k < m.transitions.len() implies {
        let tr = #[trigger] m.transitions[k];
        &&& texts_of(src, m.states).contains(token_str(src, tr.from.initial))
        &&& texts_of(src, m.states).contains(token_str(src, tr.to.0))
        &&& (texts_of(src, m.tape_alphabet->0).contains(token_str(src, tr.from.with_symbol))
            || token_str(src, tr.from.with_symbol) == eps_text())
        &&& (tr.to.1 matches Some(StackTransition::Write(tok)) ==> texts_of(
            src,
            m.tape_alphabet->0,
        ).contains(token_str(src, tok)))
    } by {
        let tr = m.transitions[k];
        assert(states.contains(token_str(src, tr.from.initial)));
        assert(states.contains(token_str(src, tr.to.0)));
    }
}

/// A validated tape machine.
#[derive(Debug)]
pub struct Info {
    states: Vec<Vec<char>>,
    alphabet: Vec<Vec<char>>,
    tape_symbols: Vec<Vec<char>>,
    transitions: Vec<Vec<Option<TMTransitionTo>>>,
    start_state: usize,
    final_states: Vec<bool>,
    blank_symbol: usize,
}

/// The shape of a table held as nested vectors.
pub open spec fn tm_table_view(t: Seq<Vec<Option<TMTransitionTo>>>) -> Seq<
    Seq<Option<TMTransitionTo>>,
> {
    Seq::new(t.len(), |i: int| t[i]@)
}

impl View for Info {
    type V = InfoView;

    closed spec fn view(&self) -> InfoView {
        InfoView {
            states: texts_view(self.states@),
            alphabet: texts_view(self.alphabet@),
            tape_symbols: texts_view(self.tape_symbols@),
            transitions: tm_table_view(self.transitions@),
            start_state: self.start_state as int,
            final_states: self.final_states@,
            blank_symbol: self.blank_symbol,
        }
    }
}

fn make_blank_tm_table(n: usize, w: usize) -> (r: Vec<Vec<Option<TMTransitionTo>>>)
    ensures
        tm_table_view(r@) =~~= blank_tm_table(n as nat, w as nat),
        r@.len() == n,
        forall|m: int| 0 <= m < n ==> (#[trigger] r@[m])@.len() == w,
{
    let mut table: Vec<Vec<Option<TMTransitionTo>>> = Vec::new();
    let mut s: usize = 0;
    while s < n
        invariant
            0 <= s <= n,
            table@.len() == s,
            forall|m: int| 0 <= m < s ==> (#[trigger] table@[m])@.len() == w,
            forall|m: int, c: int| 0 <= m < s && 0 <= c < w ==> (#[trigger] table@[m]@[c]) is None,
        decreases n - s,
    {
        let mut row: Vec<Option<TMTransitionTo>> = Vec::new();
        let mut c: usize = 0;
        while c < w
            invariant
                0 <= c <= w,
                row@.len() == c,
                forall|m: int| 0 <= m < c ==> (#[trigger] row@[m]) is None,
            decreases w - c,
        {
            row.push(None);
            c = c + 1;
        }
        table.push(row);
        s = s + 1;
    }
    proof {
        assert(tm_table_view(table@) =~~= blank_tm_table(n as nat, w as nat));
    }
    table
}

/// Folds the raw transitions into the table, mirroring `spec_fold_tm`.
fn fold_tm_exec(
    src: &[char],
    states: &Vec<Vec<char>>,
    tape0: &Vec<Vec<char>>,
    cells: &Vec<Vec<char>>,
    trs: &Vec<TransitionInfo>,
    table: &mut Vec<Vec<Option<TMTransitionTo>>>,
) -> (r: Result<(), InfoError>)
    requires
        forall|m: int|
            0 <= m < trs@.len() ==> crate::parser::tr_in_bounds(
                #[trigger] trs@[m],
                src@.len() as int,
            ),
        forall|x: Seq<char>|
            texts_view(tape0@).contains(x) ==> #[trigger] texts_view(cells@).contains(x),
        texts_view(cells@).contains(eps_text()),
        old(table)@.len() == states@.len(),
        forall|m: int|
            0 <= m < old(table)@.len() ==> (#[trigger] old(table)@[m])@.len() == cells@.len(),
    ensures
        ({
            let s = spec_fold_tm(
                src@,
                texts_view(states@),
                texts_view(tape0@),
                texts_view(cells@),
                trs@,
                tm_table_view(old(table)@),
            );
            match r {
                Ok(()) => s == Ok::<Seq<Seq<Option<TMTransitionTo>>>, InfoError>(
                    tm_table_view(final(table)@),
                ),
                Err(e) => s == Err::<Seq<Seq<Option<TMTransitionTo>>>, InfoError>(e),
            }
        }),
{
    let ghost sv = texts_view(states@);
    let ghost t0v = texts_view(tape0@);
    let ghost cv = texts_view(cells@);
    let ghost trs0 = trs@;
    let n = states.len();
    let w = cells.len();
    let mut epsv: Vec<char> = Vec::new();
    epsv.push('\u{03b5}');
    proof {
        assert(epsv@ =~= eps_text());
        assert(trs0.skip(0) =~= trs0);
    }
    let mut k: usize = 0;
    while k < trs.len()
        invariant
            0 <= k <= trs@.len(),
            trs@ == trs0,
            sv == texts_view(states@),
            t0v == texts_view(tape0@),
            cv == texts_view(cells@),
            epsv@ == eps_text(),
            n == states@.len(),
            w == cells@.len(),
            forall|m: int|
                0 <= m < trs0.len() ==> crate::parser::tr_in_bounds(
                    #[trigger] trs0[m],
                    src@.len() as int,
                ),
            forall|x: Seq<char>| t0v.contains(x) ==> #[trigger] cv.contains(x),
            cv.contains(eps_text()),
            table@.len() == n,
            forall|m: int| 0 <= m < n ==> (#[trigger] table@[m])@.len() == w,
            spec_fold_tm(src@, sv, t0v, cv, trs0, tm_table_view(old(table)@)) == spec_fold_tm(
                src@,
                sv,
                t0v,
                cv,
                trs0.skip(k as int),
                tm_table_view(table@),
            ),
        decreases trs@.len() - k,
    {
        let tr = trs[k];
        proof {
            assert(trs0.skip(k as int)[0] == trs0[k as int]);
            assert(trs0.skip(k as int).drop_first() =~= trs0.skip(k as int + 1));
        }
        let ftext = tr.from.initial.src(src);
        let si = match find_vec(states, ftext.as_slice()) {
            None => {
                return Err(InfoError::UnknownState { at: tr.from.initial.span });
            },
            Some(x) => x,
        };
        let stext = tr.from.with_symbol.src(src);
        let is_eps = crate::parser::chars_eq(stext.as_slice(), epsv.as_slice());
        if !is_eps && find_vec(tape0, stext.as_slice()).is_none() {
            proof {
                lemma_find_text(t0v, stext@);
                if t0v.contains(stext@) {
                    let m2 = choose|m2: int| 0 <= m2 < t0v.len() && t0v[m2] == stext@;
                    assert(false);
                }
            }
            return Err(InfoError::UnknownTapeSymbol { at: tr.from.with_symbol.span });
        }
        proof {
            lemma_find_text(t0v, stext@);
            if !(stext@ == eps_text()) {
                assert(t0v.contains(stext@));
                assert(cv.contains(stext@));
            }
            lemma_find_text(cv, stext@);
        }
        let ci = match find_vec(cells, stext.as_slice()) {
            None => {
                proof {
                    assert(cv.contains(stext@));
                    let m2 = choose|m2: int| 0 <= m2 < cv.len() && cv[m2] == stext@;
                    assert(false);
                }
                return Err(InfoError::MissingTapeOperation);
            },
            Some(x) => x,
        };
        let ttext = tr.to.0.src(src);
        let ti = match find_vec(states, ttext.as_slice()) {
            None => {
                return Err(InfoError::UnknownState { at: tr.to.0.span });
            },
            Some(x) => x,
        };
        let (wtok, wi) = match tr.to.1 {
            Some(StackTransition::Write(wtok)) => {
                let wtext = wtok.src(src);
                if find_vec(tape0, wtext.as_slice()).is_none() {
                    proof {
                        lemma_find_text(t0v, wtext@);
                        if t0v.contains(wtext@) {
                            let m2 = choose|m2: int| 0 <= m2 < t0v.len() && t0v[m2] == wtext@;
                            assert(false);
                        }
                    }
                    return Err(InfoError::UnknownTapeSymbol { at: wtok.span });
                }
                proof {
                    lemma_find_text(t0v, wtext@);
                    assert(t0v.contains(wtext@));
                    assert(cv.contains(wtext@));
                    lemma_find_text(cv, wtext@);
                }
                let wi = match find_vec(cells, wtext.as_slice()) {
                    None => {
                        proof {
                            assert(cv.contains(wtext@));
                            let m2 = choose|m2: int| 0 <= m2 < cv.len() && cv[m2] == wtext@;
                            assert(false);
                        }
                        return Err(InfoError::MissingTapeOperation);
                    },
                    Some(x) => x,
                };
                (wtok, wi)
            },
            Some(_) => {
                return Err(InfoError::MissingTapeOperation);
            },
            None => {
                return Err(InfoError::MissingTapeOperation);
            },
        };
        let dir = match tr.to.2 {
            None => {
                return Err(InfoError::MissingSection { section: SectionName::Direction });
            },
            Some(ParserDirection::Left) => Direction::Left,
            Some(ParserDirection::Right) => Direction::Right,
        };
        proof {
            lemma_find_text(sv, ftext@);
            lemma_find_text(sv, ttext@);
        }
        let key = TMTransitionFrom { initial: si, with_symbol: ci };
        let ghost tbl_before = tm_table_view(table@);
        table[key.initial][key.with_symbol] = Some(
            TMTransitionTo { state: ti, write_symbol: wi, direction: dir },
        );
        proof {
            assert(tm_table_view(table@) =~~= tbl_before.update(
                si as int,
                tbl_before[si as int].update(
                    ci as int,
                    Some(TMTransitionTo { state: ti, write_symbol: wi, direction: dir }),
                ),
            ));
        }
        k = k + 1;
    }
    proof {
        assert(trs0.skip(trs0.len() as int).len() == 0);
    }
    Ok(())
}

impl Info {
    #[verifier::type_invariant]
    spec fn type_inv(self) -> bool {
        self@.wf()
    }

    /// Validates a parsed description as a tape machine.
    pub fn new(machine_info: PartialMachineInfo, src: &[char]) -> (r: Result<Info, InfoError>)
        requires
            pm_in_bounds(machine_info@, src@),
        ensures
            ({
                let s = spec_validate(machine_info@, src@);
                match r {
                    Ok(info) => s == Ok::<InfoView, InfoError>(info@),
                    Err(e) => s == Err::<InfoView, InfoError>(e),
                }
            }),
    {
        let states = intern_tokens(src, &machine_info.states);
        let alphabet = intern_tokens(src, &machine_info.alphabet);
        let tape_toks = match &machine_info.tape_alphabet {
            None => {
                return Err(InfoError::MissingSection { section: SectionName::TapeAlphabet });
            },
            Some(v) => v,
        };
        let btok = match &machine_info.blank_symbol {
            None => {
                return Err(InfoError::MissingSection { section: SectionName::BlankSymbol });
            },
            Some(t) => *t,
        };
        let tape0 = intern_tokens(src, tape_toks);
        let btext = btok.src(src);

        // The cell-symbol table: tape alphabet, then ε, then the blank.
        let mut cells = crate::machine::copy_all(&tape0);
        let mut epsv: Vec<char> = Vec::new();
        epsv.push('\u{03b5}');
        proof {
            assert(epsv@ =~= eps_text());
            lemma_find_text(texts_view(cells@), eps_text());
            crate::machine::lemma_intern(texts_of(src@, tape_toks@));
        }
        if find_vec(&cells, epsv.as_slice()).is_none() {
            let ghost before = texts_view(cells@);
            proof {
                if before.contains(eps_text()) {
                    let m2 = choose|m2: int| 0 <= m2 < before.len() && before[m2] == eps_text();
                    assert(false);
                }
            }
            cells.push(epsv);
            proof {
                assert(texts_view(cells@) =~= before.push(eps_text()));
            }
        } else {
            proof {
                assert(texts_view(cells@).contains(eps_text()));
            }
        }
        proof {
            lemma_find_text(texts_view(cells@), btext@);
        }
        if find_vec(&cells, btext.as_slice()).is_none() {
            let ghost before = texts_view(cells@);
            proof {
                if before.contains(btext@) {
                    let m2 = choose|m2: int| 0 <= m2 < before.len() && before[m2] == btext@;
                    assert(false);
                }
            }
            let bcopy = crate::machine::copy_chars(&btext);
            cells.push(bcopy);
            proof {
                assert(texts_view(cells@) =~= before.push(btext@));
            }
        } else {
            proof {
                assert(texts_view(cells@).contains(btext@));
            }
        }
        proof {
            assert(texts_view(cells@) =~= cell_table(texts_view(tape0@), btext@));
        }

        let ghost sv = texts_view(states@);
        let ghost cv = texts_view(cells@);
        let n = states.len();
        let w = cells.len();

        let mut finals: Vec<bool> = crate::machine::dfa::make_false_vec(n);
        match mark_finals(src, &states, &machine_info.final_states, &mut finals) {
            Err(t) => {
                return Err(InfoError::UnknownState { at: t.span });
            },
            Ok(()) => {},
        }

        let start_text = machine_info.start_state.src(src);
        let si = match find_vec(&states, start_text.as_slice()) {
            None => {
                return Err(InfoError::UnknownState { at: machine_info.start_state.span });
            },
            Some(si) => si,
        };
        proof {
            lemma_find_text(sv, start_text@);
        }

        let mut table = make_blank_tm_table(n, w);
        proof {
            lemma_cell_table(texts_view(tape0@), btext@);
        }
        match fold_tm_exec(src, &states, &tape0, &cells, &machine_info.transitions, &mut table) {
            Err(e) => {
                return Err(e);
            },
            Ok(()) => {},
        }

        proof {
            lemma_find_text(cv, btext@);
            assert(cv.contains(btext@));
        }
        let blank_symbol = match find_vec(&cells, btext.as_slice()) {
            None => {
                proof {
                    let m2 = choose|m2: int| 0 <= m2 < cv.len() && cv[m2] == btext@;
                    assert(false);
                }
                return Err(InfoError::MissingTapeOperation);
            },
            Some(x) => x,
        };

        proof {
            lemma_validate_wf(machine_info@, src@);
            let iv = InfoView {
                states: sv,
                alphabet: texts_view(alphabet@),
                tape_symbols: cv,
                transitions: tm_table_view(table@),
                start_state: si as int,
                final_states: finals@,
                blank_symbol,
            };
            assert(spec_validate(machine_info@, src@) == Ok::<InfoView, InfoError>(iv));
            assert(iv.wf());
        }
        let info = Info {
            states,
            alphabet,
            tape_symbols: cells,
            transitions: table,
            start_state: si,
            final_states: finals,
            blank_symbol,
        };
        Ok(info)
    }
}

/// The symbol under a position: cells beyond either end read as blank.
pub open spec fn tape_read_at(tape: Seq<usize>, pos: int, blank: usize) -> usize {
    if 0 <= pos < tape.len() {
        tape[pos]
    } else {
        blank
    }
}

/// The tape after a write: writing beyond the current bounds extends the
/// tape with blank cells up to the written position, never disturbing the
/// cells already written.
pub open spec fn spec_tape_write(tape: Seq<usize>, pos: int, sym: usize, blank: usize) -> Seq<
    usize,
> {
    if 0 <= pos < tape.len() {
        tape.update(pos, sym)
    } else {
        tape + Seq::new((pos - tape.len()) as nat, |i: int| blank) + seq![sym]
    }
}

/// The tape and position after a head move: moving left of the front
/// inserts a blank and stays at the new front; moving right past the end
/// appends one blank cell.  Existing cells are never disturbed.
pub open spec fn spec_tape_move(tape: Seq<usize>, pos: int, dir: Direction, blank: usize) -> (
    Seq<usize>,
    int,
) {
    match dir {
        Direction::Left => if pos > 0 {
            (tape, pos - 1)
        } else {
            (seq![blank] + tape, 0)
        },
        Direction::Right => if pos + 1 >= tape.len() {
            (tape.push(blank), pos + 1)
        } else {
            (tape, pos + 1)
        },
    }
}

/// The view of a tape: its cells, head position and blank symbol.
pub struct TapeView {
    pub tape: Seq<usize>,
    pub position: int,
    pub blank_symbol: usize,
}

/// An unbounded, lazily extended tape with a cursor, starting as a single
/// blank cell.
pub struct Tape {
    tape: Vec<usize>,
    position: usize,
    blank_symbol: usize,
}

impl View for Tape {
    type V = TapeView;

    closed spec fn view(&self) -> TapeView {
        TapeView {
            tape: self.tape@,
            position: self.position as int,
            blank_symbol: self.blank_symbol,
        }
    }
}

impl Tape {
    /// A tape of one blank cell, the cursor on it.
    pub fn new(blank_symbol: usize) -> (r: Tape)
        ensures
            r@.tape == seq![blank_symbol],
            r@.position == 0,
            r@.blank_symbol == blank_symbol,
    {
        let mut v: Vec<usize> = Vec::new();
        v.push(blank_symbol);
        proof {
            assert(v@ =~= seq![blank_symbol]);
        }
        Tape { tape: v, position: 0, blank_symbol }
    }

    /// The symbol under the cursor; a position beyond the cells reads as
    /// blank, as a never-visited cell holds the blank symbol.
    pub fn get_current_symbol(&self) -> (r: usize)
        ensures
            r == tape_read_at(self@.tape, self@.position, self@.blank_symbol),
    {
        if self.position < self.tape.len() {
            self.tape[self.position]
        } else {
            self.blank_symbol
        }
    }

    /// Writes under the cursor, extending the tape with blanks first when
    /// the cursor is beyond the cells; nothing else moves.
    pub fn write_symbol(&mut self, symbol: usize)
        requires
            old(self)@.position < old(self)@.tape.len() || old(self)@.position < usize::MAX,
        ensures
            final(self)@.tape == spec_tape_write(
                old(self)@.tape,
                old(self)@.position,
                symbol,
                old(self)@.blank_symbol,
            ),
            final(self)@.position == old(self)@.position,
            final(self)@.blank_symbol == old(self)@.blank_symbol,
    {
        if self.position < self.tape.len() {
            let pos = self.position;
            self.tape[pos] = symbol;
            proof {
                assert(self.tape@ =~= spec_tape_write(
                    old(self)@.tape,
                    old(self)@.position,
                    symbol,
                    old(self)@.blank_symbol,
                ));
            }
        } else {
            proof {
                assert(self.tape@ =~= old(self)@.tape + Seq::new(
                    (self.tape@.len() - old(self)@.tape.len()) as nat,
                    |i: int| old(self)@.blank_symbol,
                ));
            }
            while self.tape.len() <= self.position
                invariant
                    self.position == old(self)@.position,
                    self.blank_symbol == old(self)@.blank_symbol,
                    self.position < usize::MAX,
                    old(self)@.tape.len() <= self.tape@.len() <= self.position + 1,
                    self.tape@ == old(self)@.tape + Seq::new(
                        (self.tape@.len() - old(self)@.tape.len()) as nat,
                        |i: int| old(self)@.blank_symbol,
                    ),
                decreases self.position + 1 - self.tape@.len(),
            {
                self.tape.push(self.blank_symbol);
                proof {
                    assert(self.tape@ =~= old(self)@.tape + Seq::new(
                        (self.tape@.len() - old(self)@.tape.len()) as nat,
                        |i: int| old(self)@.blank_symbol,
                    ));
                }
            }
            let pos = self.position;
            self.tape[pos] = symbol;
            proof {
                assert(self.tape@ =~= spec_tape_write(
                    old(self)@.tape,
                    old(self)@.position,
                    symbol,
                    old(self)@.blank_symbol,
                ));
            }
        }
    }

    /// Moves the cursor left; at the front, a blank cell is inserted and
    /// the cursor stays on the new front.
    pub fn move_left(&mut self)
        ensures
            ({
                let (t, p) = spec_tape_move(
                    old(self)@.tape,
                    old(self)@.position,
                    Direction::Left,
                    old(self)@.blank_symbol,
                );
                final(self)@.tape == t && final(self)@.position == p
            }),
            final(self)@.blank_symbol == old(self)@.blank_symbol,
    {
        if self.position > 0 {
            self.position = self.position - 1;
        } else {
            self.tape.insert(0, self.blank_symbol);
            proof {
                assert(self.tape@ =~= seq![self.blank_symbol] + old(self)@.tape);
            }
        }
    }

    /// Moves the cursor right; past the last cell, one blank cell is
    /// appended.
    pub fn move_right(&mut self)
        requires
            old(self)@.position < old(self)@.tape.len() || old(self)@.position < usize::MAX,
        ensures
            ({
                let (t, p) = spec_tape_move(
                    old(self)@.tape,
                    old(self)@.position,
                    Direction::Right,
                    old(self)@.blank_symbol,
                );
                final(self)@.tape == t && final(self)@.position == p
            }),
            final(self)@.blank_symbol == old(self)@.blank_symbol,
    {
        let len = self.tape.len();
        self.position = self.position + 1;
        if self.position >= len {
            self.tape.push(self.blank_symbol);
        }
    }
}

/// The cell symbol an input character denotes: its index in the cell-symbol
/// table, or the out-of-table sentinel for a character naming no declared
/// symbol (such a cell matches no transition).
pub open spec fn cell_of(iv: InfoView, c: char) -> usize {
    match find_char_symbol(iv.tape_symbols, c) {
        Some(k) => k as usize,
        None => iv.tape_symbols.len() as usize,
    }
}

/// The tape at the start of a run: the input written left to right from the
/// origin, and the blank cell the final move-right appended.
pub open spec fn init_tape(iv: InfoView, input: Seq<char>) -> Seq<usize> {
    Seq::new(input.len(), |i: int| cell_of(iv, input[i])).push(iv.blank_symbol)
}

/// The table entry for (state, cell), if any; an out-of-table cell matches
/// nothing.
pub open spec fn tm_lookup(iv: InfoView, st: int, cell: usize) -> Option<TMTransitionTo> {
    if (cell as int) < iv.tape_symbols.len() {
        iv.transitions[st][cell as int]
    } else {
        None
    }
}

/// The run, one fired transition per unit of fuel: read the cell under the
/// cursor; a missing entry halts and rejects; otherwise write, move, change
/// state, and accept at once when the new state is final.  `None` means the
/// machine had not halted within `fuel` steps.
pub open spec fn spec_run_from(
    iv: InfoView,
    st: int,
    tape: Seq<usize>,
    pos: int,
    fuel: nat,
) -> Option<bool>
    decreases fuel,
{
    match tm_lookup(iv, st, tape_read_at(tape, pos, iv.blank_symbol)) {
        None => Some(false),
        Some(tr) => {
            let t1 = spec_tape_write(tape, pos, tr.write_symbol, iv.blank_symbol);
            let (t2, p2) = spec_tape_move(t1, pos, tr.direction, iv.blank_symbol);
            if iv.final_states[tr.state as int] {
                Some(true)
            } else if fuel == 0 {
                None
            } else {
                spec_run_from(iv, tr.state as int, t2, p2, (fuel - 1) as nat)
            }
        },
    }
}

/// More fuel never changes a result already reached.
pub proof fn lemma_run_fuel_monotone(
    iv: InfoView,
    st: int,
    tape: Seq<usize>,
    pos: int,
    f1: nat,
    f2: nat,
)
    requires
        f1 <= f2,
        spec_run_from(iv, st, tape, pos, f1) is Some,
    ensures
        spec_run_from(iv, st, tape, pos, f2) == spec_run_from(iv, st, tape, pos, f1),
    decreases f1,
{
    match tm_lookup(iv, st, tape_read_at(tape, pos, iv.blank_symbol)) {
        None => {},
        Some(tr) => {
            let t1 = spec_tape_write(tape, pos, tr.write_symbol, iv.blank_symbol);
            let (t2, p2) = spec_tape_move(t1, pos, tr.direction, iv.blank_symbol);
            if !iv.final_states[tr.state as int] {
                lemma_run_fuel_monotone(iv, tr.state as int, t2, p2, (f1 - 1) as nat, (f2 - 1) as nat);
            }
        },
    }
}

/// The view of a machine: its validated table.
pub struct MachineView {
    pub info: InfoView,
}

/// A tape machine ready to run.
pub struct Machine {
    info: Info,
}

impl View for Machine {
    type V = MachineView;

    closed spec fn view(&self) -> MachineView {
        MachineView { info: self.info@ }
    }
}

impl Machine {
    /// A machine over a validated table.
    pub fn new(info: Info) -> (r: Machine)
        ensures
            r@.info == info@,
    {
        Machine { info }
    }

    /// Runs the machine over `input` and decides acceptance.  The result is
    /// what the table reaches, provided the machine halts within
    /// `usize::MAX` steps; a run still going after that is rejected.
    pub fn run(&self, input: &[char]) -> (r: bool)
        ensures
            ({
                let outcome = spec_run_from(
                    self@.info,
                    self@.info.start_state,
                    init_tape(self@.info, input@),
                    0,
                    usize::MAX as nat,
                );
                outcome == Some(r) || (r == false && outcome is None)
            }),
    {
        proof {
            use_type_invariant(&self.info);
        }
        let ghost iv = self@.info;
        let n = input.len();
        let mut tape = Tape::new(self.info.blank_symbol);

        // Write the input onto the tape, the cursor following.
        let mut i: usize = 0;
        while i < n
            invariant
                iv == self@.info,
                iv.wf(),
                0 <= i <= n,
                n == input@.len(),
                tape@.blank_symbol == iv.blank_symbol,
                tape@.position == i,
                tape@.tape =~= Seq::new(i as nat, |k: int| cell_of(iv, input@[k])).push(
                    iv.blank_symbol,
                ),
            decreases n - i,
        {
            let c = input[i];
            let cell = match find_symbol_char(&self.info.tape_symbols, c) {
                Some(k) => k,
                None => self.info.tape_symbols.len(),
            };
            proof {
                assert(cell == cell_of(iv, input@[i as int]));
            }
            let ghost before = tape@;
            tape.write_symbol(cell);
            tape.move_right();
            proof {
                assert(tape@.tape =~= Seq::new((i + 1) as nat, |k: int| cell_of(iv, input@[k])).push(
                    iv.blank_symbol,
                ));
            }
            i = i + 1;
        }

        // Reset the cursor to the origin.
        let mut j: usize = 0;
        while j < n
            invariant
                iv == self@.info,
                0 <= j <= n,
                tape@.position == n - j,
                tape@.blank_symbol == iv.blank_symbol,
                tape@.tape =~= init_tape(iv, input@),
            decreases n - j,
        {
            tape.move_left();
            j = j + 1;
        }
        proof {
            assert(tape@.tape =~= init_tape(iv, input@));
        }

        let mut st = self.info.start_state;
        let mut fuel: usize = usize::MAX;
        let ghost st0 = iv.start_state;
        loop
            invariant
                iv == self@.info,
                iv.wf(),
                st0 == iv.start_state,
                (st as int) < iv.states.len(),
                0 <= tape@.position < tape@.tape.len(),
                tape@.blank_symbol == iv.blank_symbol,
                fuel <= usize::MAX,
                forall|k: nat|
                    spec_run_from(iv, st0, init_tape(iv, input@), 0, ((usize::MAX - fuel) + k) as nat)
                        == #[trigger] spec_run_from(iv, st as int, tape@.tape, tape@.position, k),
            decreases fuel,
        {
            let cell = tape.get_current_symbol();
            let trn = if cell < self.info.tape_symbols.len() {
                proof {
                    assert(self.info.transitions@.len() == iv.transitions.len());
                    assert(iv.transitions[st as int].len() == iv.tape_symbols.len());
                    assert(self.info.transitions@[st as int]@.len() == iv.tape_symbols.len());
                }
                self.info.transitions[st][cell]
            } else {
                None
            };
            let tr = match trn {
                None => {
                    proof {
                        assert(spec_run_from(iv, st as int, tape@.tape, tape@.position, 0)
                            == Some(false));
                        assert(spec_run_from(
                            iv,
                            st0,
                            init_tape(iv, input@),
                            0,
                            ((usize::MAX - fuel) + 0) as nat,
                        ) == Some(false));
                        lemma_run_fuel_monotone(
                            iv,
                            st0,
                            init_tape(iv, input@),
                            0,
                            ((usize::MAX - fuel) + 0) as nat,
                            usize::MAX as nat,
                        );
                    }
                    return false;
                },
                Some(tr) => tr,
            };
            let ghost before = tape@;
            let ghost fuel0 = fuel;
            let ghost stg = st as int;
            tape.write_symbol(tr.write_symbol);
            match tr.direction {
                Direction::Left => tape.move_left(),
                Direction::Right => tape.move_right(),
            }
            st = tr.state;
            if self.info.final_states[st] {
                proof {
                    assert(spec_run_from(iv, stg, before.tape, before.position, 0) == Some(true));
                    assert(spec_run_from(
                        iv,
                        st0,
                        init_tape(iv, input@),
                        0,
                        ((usize::MAX - fuel) + 0) as nat,
                    ) == Some(true));
                    lemma_run_fuel_monotone(
                        iv,
                        st0,
                        init_tape(iv, input@),
                        0,
                        ((usize::MAX - fuel) + 0) as nat,
                        usize::MAX as nat,
                    );
                }
                return true;
            }
            if fuel == 0 {
                proof {
                    assert(spec_run_from(iv, stg, before.tape, before.position, 0) is None);
                    assert(spec_run_from(iv, st0, init_tape(iv, input@), 0, usize::MAX as nat)
                        is None);
                }
                return false;
            }
            fuel = fuel - 1;
            proof {
                assert forall|k: nat|
                    spec_run_from(iv, st0, init_tape(iv, input@), 0, ((usize::MAX - fuel) + k) as nat)
                        == #[trigger] spec_run_from(iv, st as int, tape@.tape, tape@.position, k) by {
                    assert(spec_run_from(
                        iv,
                        st0,
                        init_tape(iv, input@),
                        0,
                        ((usize::MAX - fuel0) + (k + 1)) as nat,
                    ) == spec_run_from(iv, stg, before.tape, before.position, (k + 1) as nat));
                    assert(spec_run_from(iv, stg, before.tape, before.position, (k + 1) as nat)
                        == spec_run_from(iv, st as int, tape@.tape, tape@.position, k));
                }
            }
        }
    }
}

} // verus!
