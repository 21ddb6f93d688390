//! Validated machines: one validator and one simulator per machine kind,
//! together with the name-resolution helpers they share.
//!
//! A validator resolves every token of the intermediate description against
//! the declared state and alphabet lists, replacing names by indices into
//! those (deduplicated) lists; a machine then runs entirely over indices.

use vstd::prelude::*;
use crate::parser::{Token, token_str, all_in_bounds};
use crate::parser::chars_eq;

pub mod dfa;
pub mod nfa;
pub mod pda;
pub mod tm;

verus! {

/// A resolved lookup key: declared-state index and declared-symbol index.
#[derive(Debug, Clone, Copy, PartialEq, Eq)]
pub struct TransitionFrom {
    pub initial: usize,
    pub with_symbol: usize,
}

/// A resolved destination: a declared-state index.
#[derive(Debug, Clone, Copy, PartialEq, Eq)]
pub struct TransitionTo(pub usize);

/// The texts of a list of name strings.
pub open spec fn texts_view(v: Seq<Vec<char>>) -> Seq<Seq<char>> {
    Seq::new(v.len(), |k: int| v[k]@)
}

/// The texts of a token sequence, each resolved against the source buffer.
pub open spec fn texts_of(src: Seq<char>, tokens: Seq<Token>) -> Seq<Seq<char>> {
    Seq::new(tokens.len(), |k: int| token_str(src, tokens[k]))
}

/// The first index in `s` holding exactly the text `x`.
pub open spec fn find_text(s: Seq<Seq<char>>, x: Seq<char>) -> Option<int>
    decreases s.len(),
{
    if s.len() == 0 {
        None
    } else if s[0] == x {
        Some(0)
    } else {
        match find_text(s.drop_first(), x) {
            Some(k) => Some(k + 1),
            None => None,
        }
    }
}

pub proof fn lemma_find_text(s: Seq<Seq<char>>, x: Seq<char>)
    ensures
        match find_text(s, x) {
            Some(k) => 0 <= k < s.len() && s[k] == x && forall|m: int| 0 <= m < k ==> s[m] != x,
            None => forall|m: int| 0 <= m < s.len() ==> s[m] != x,
        },
    decreases s.len(),
{
    if s.len() > 0 && s[0] != x {
        lemma_find_text(s.drop_first(), x);
        match find_text(s.drop_first(), x) {
            Some(k0) => {
                assert forall|m: int| 0 <= m < k0 + 1 implies s[m] != x by {
                    if m > 0 {
                        assert(s.drop_first()[m - 1] == s[m]);
                    }
                }
            },
            None => {
                assert forall|m: int| 0 <= m < s.len() implies s[m] != x by {
                    if m > 0 {
                        assert(s.drop_first()[m - 1] == s[m]);
                    }
                }
            },
        }
    }
}

/// The declared names in first-occurrence order with duplicates removed:
/// the set semantics the validators give a declaration list.
pub open spec fn intern(texts: Seq<Seq<char>>) -> Seq<Seq<char>>
    decreases texts.len(),
{
    if texts.len() == 0 {
        Seq::empty()
    } else {
        let rest = intern(texts.drop_last());
        if rest.contains(texts.last()) {
            rest
        } else {
            rest.push(texts.last())
        }
    }
}

/// Interning keeps exactly the declared names, each once.
pub proof fn lemma_intern(texts: Seq<Seq<char>>)
    ensures
        forall|i: int, j: int|
            0 <= i < j < intern(texts).len() ==> intern(texts)[i] != intern(texts)[j],
        forall|x: Seq<char>| #[trigger] intern(texts).contains(x) == texts.contains(x),
    decreases texts.len(),
{
    if texts.len() > 0 {
        lemma_intern(texts.drop_last());
        let rest = intern(texts.drop_last());
        assert forall|x: Seq<char>| #[trigger] intern(texts).contains(x) == texts.contains(x) by {
            if intern(texts).contains(x) {
                if rest.contains(x) {
                    assert(texts.drop_last().contains(x));
                    let m = choose|m: int| 0 <= m < texts.drop_last().len() && texts.drop_last()[m] == x;
                    assert(texts[m] == x);
                    assert(texts.contains(x));
                } else {
                    assert(x == texts.last());
                    assert(texts.contains(x));
                }
            }
            if texts.contains(x) {
                let m = choose|m: int| 0 <= m < texts.len() && texts[m] == x;
                if m < texts.len() - 1 {
                    assert(texts.drop_last()[m] == x);
                    assert(texts.drop_last().contains(x));
                    if !rest.contains(x) {
                        assert(false);
                    }
                    let k = choose|k: int| 0 <= k < rest.len() && rest[k] == x;
                    assert(intern(texts)[k] == x);
                    assert(intern(texts).contains(x));
                } else {
                    if rest.contains(x) {
                        let k = choose|k: int| 0 <= k < rest.len() && rest[k] == x;
                        assert(intern(texts)[k] == x);
                    } else {
                        assert(intern(texts).last() == x);
                    }
                    assert(intern(texts).contains(x));
                }
            }
        }
    }
}

/// The first declared one-character symbol whose character is `c`.
pub open spec fn find_char_symbol(alphabet: Seq<Seq<char>>, c: char) -> Option<int>
    decreases alphabet.len(),
{
    if alphabet.len() == 0 {
        None
    } else if alphabet[0].len() == 1 && alphabet[0][0] == c {
        Some(0)
    } else {
        match find_char_symbol(alphabet.drop_first(), c) {
            Some(k) => Some(k + 1),
            None => None,
        }
    }
}

/// The text of the reserved epsilon symbol.
pub open spec fn eps_text() -> Seq<char> {
    seq!['\u{03b5}']
}

/// The first declared one-character symbol whose character is `c`, never
/// matching the reserved epsilon symbol itself.
pub open spec fn find_char_symbol_noneps(alphabet: Seq<Seq<char>>, c: char) -> Option<int>
    decreases alphabet.len(),
{
    if alphabet.len() == 0 {
        None
    } else if alphabet[0].len() == 1 && alphabet[0][0] == c && alphabet[0] != eps_text() {
        Some(0)
    } else {
        match find_char_symbol_noneps(alphabet.drop_first(), c) {
            Some(k) => Some(k + 1),
            None => None,
        }
    }
}

/// The first index in `table` holding exactly the text `x`.
pub(crate) fn find_vec(table: &Vec<Vec<char>>, x: &[char]) -> (r: Option<usize>)
    ensures
        match r {
            Some(k) => find_text(texts_view(table@), x@) == Some(k as int),
            None => find_text(texts_view(table@), x@) is None,
        },
{
    let n = table.len();
    let ghost tv = texts_view(table@);
    let mut k: usize = 0;
    proof {
        assert(tv.skip(0) =~= tv);
    }
    while k < n
        invariant
            0 <= k <= n,
            n == table@.len(),
            tv == texts_view(table@),
            tv.len() == n,
            forall|m: int| 0 <= m < tv.len() ==> tv[m] == table@[m]@,
            find_text(tv, x@) == match find_text(tv.skip(k as int), x@) {
                Some(m) => Some(m + k as int),
                None => None::<int>,
            },
        decreases n - k,
    {
        proof {
            assert(tv.skip(k as int)[0] == tv[k as int]);
            assert(tv.skip(k as int).drop_first() =~= tv.skip(k as int + 1));
        }
        if chars_eq(table[k].as_slice(), x) {
            return Some(k);
        }
        k = k + 1;
    }
    proof {
        assert(tv.skip(n as int).len() == 0);
    }
    None
}

/// Resolves each token's text and interns it, producing the deduplicated
/// declared-name list.
pub(crate) fn intern_tokens(src: &[char], tokens: &Vec<Token>) -> (r: Vec<Vec<char>>)
    requires
        all_in_bounds(src@, tokens@),
    ensures
        texts_view(r@) == intern(texts_of(src@, tokens@)),
{
    let n = tokens.len();
    let ghost all = texts_of(src@, tokens@);
    let mut out: Vec<Vec<char>> = Vec::new();
    let mut k: usize = 0;
    proof {
        assert(all.take(0) =~= Seq::<Seq<char>>::empty());
        assert(texts_view(out@) =~= intern(all.take(0)));
    }
    while k < n
        invariant
            0 <= k <= n,
            n == tokens@.len(),
            all == texts_of(src@, tokens@),
            all_in_bounds(src@, tokens@),
            texts_view(out@) == intern(all.take(k as int)),
        decreases n - k,
    {
        let text = tokens[k].src(src);
        proof {
            assert(all.take(k as int + 1).drop_last() =~= all.take(k as int));
            assert(all.take(k as int + 1).last() == all[k as int]);
            assert(text@ == all[k as int]);
            lemma_find_text(texts_view(out@), text@);
        }
        match find_vec(&out, text.as_slice()) {
            Some(_) => {
                proof {
                    assert(intern(all.take(k as int)).contains(text@));
                    assert(texts_view(out@) =~= intern(all.take(k as int + 1)));
                }
            },
            None => {
                proof {
                    if intern(all.take(k as int)).contains(text@) {
                        let m = choose|m: int|
                            0 <= m < intern(all.take(k as int)).len() && intern(
                                all.take(k as int),
                            )[m] == text@;
                        assert(texts_view(out@)[m] == text@);
                        assert(false);
                    }
                }
                out.push(text);
                proof {
                    assert(texts_view(out@) =~= intern(all.take(k as int + 1)));
                }
            },
        }
        k = k + 1;
    }
    proof {
        assert(all.take(n as int) =~= all);
    }
    out
}

/// Marks each declared final state in a membership table over the declared
/// state indices; the first final-state token naming an undeclared state is
/// handed back as the offender.
pub open spec fn spec_mark_finals(
    src: Seq<char>,
    states: Seq<Seq<char>>,
    toks: Seq<Token>,
    acc: Seq<bool>,
) -> Result<Seq<bool>, Token>
    decreases toks.len(),
{
    if toks.len() == 0 {
        Ok(acc)
    } else {
        let t = toks[0];
        match find_text(states, token_str(src, t)) {
            None => Err(t),
            Some(k) => spec_mark_finals(src, states, toks.drop_first(), acc.update(k, true)),
        }
    }
}

/// Marks the declared final states, or returns the first token naming an
/// undeclared state.
pub(crate) fn mark_finals(
    src: &[char],
    states: &Vec<Vec<char>>,
    toks: &Vec<Token>,
    finals: &mut Vec<bool>,
) -> (r: Result<(), Token>)
    requires
        all_in_bounds(src@, toks@),
        old(finals)@.len() == texts_view(states@).len(),
    ensures
        match r {
            Ok(()) => spec_mark_finals(src@, texts_view(states@), toks@, old(finals)@) == Ok::<
                Seq<bool>,
                Token,
            >(final(finals)@) && final(finals)@.len() == old(finals)@.len(),
            Err(t) => spec_mark_finals(src@, texts_view(states@), toks@, old(finals)@) == Err::<
                Seq<bool>,
                Token,
            >(t),
        },
{
    let n = toks.len();
    let ghost sv = texts_view(states@);
    let mut k: usize = 0;
    proof {
        assert(toks@.skip(0) =~= toks@);
    }
    while k < n
        invariant
            0 <= k <= n,
            n == toks@.len(),
            sv == texts_view(states@),
            all_in_bounds(src@, toks@),
            finals@.len() == old(finals)@.len() == sv.len(),
            spec_mark_finals(src@, sv, toks@, old(finals)@) == spec_mark_finals(
                src@,
                sv,
                toks@.skip(k as int),
                finals@,
            ),
        decreases n - k,
    {
        let t = toks[k];
        proof {
            assert(toks@.skip(k as int)[0] == toks@[k as int]);
            assert(toks@.skip(k as int).drop_first() =~= toks@.skip(k as int + 1));
        }
        let text = t.src(src);
        match find_vec(states, text.as_slice()) {
            None => {
                return Err(t);
            },
            Some(si) => {
                proof {
                    lemma_find_text(sv, text@);
                }
                finals[si] = true;
            },
        }
        k = k + 1;
    }
    proof {
        assert(toks@.skip(n as int).len() == 0);
    }
    Ok(())
}


/// Copies a name string.
pub(crate) fn copy_chars(v: &Vec<char>) -> (r: Vec<char>)
    ensures
        r@ == v@,
{
    let mut out: Vec<char> = Vec::new();
    let mut k: usize = 0;
    while k < v.len()
        invariant
            0 <= k <= v@.len(),
            out@ == v@.take(k as int),
        decreases v@.len() - k,
    {
        out.push(v[k]);
        proof {
            assert(out@ =~= v@.take(k as int + 1));
        }
        k = k + 1;
    }
    proof {
        assert(v@.take(v@.len() as int) =~= v@);
    }
    out
}

/// The first declared one-character symbol whose character is `c`.
pub(crate) fn find_symbol_char(alphabet: &Vec<Vec<char>>, c: char) -> (r: Option<usize>)
    ensures
        match r {
            Some(k) => find_char_symbol(texts_view(alphabet@), c) == Some(k as int),
            None => find_char_symbol(texts_view(alphabet@), c) is None,
        },
{
    let n = alphabet.len();
    let ghost av = texts_view(alphabet@);
    let mut k: usize = 0;
    proof {
        assert(av.skip(0) =~= av);
    }
    while k < n
        invariant
            0 <= k <= n,
            n == alphabet@.len(),
            av == texts_view(alphabet@),
            find_char_symbol(av, c) == match find_char_symbol(av.skip(k as int), c) {
                Some(m) => Some(m + k as int),
                None => None::<int>,
            },
        decreases n - k,
    {
        proof {
            assert(av.skip(k as int)[0] == av[k as int]);
            assert(av.skip(k as int).drop_first() =~= av.skip(k as int + 1));
        }
        let sym = &alphabet[k];
        if sym.len() == 1 && sym[0] == c {
            return Some(k);
        }
        k = k + 1;
    }
    proof {
        assert(av.skip(n as int).len() == 0);
    }
    None
}

/// The first declared one-character symbol whose character is `c`, never
/// matching the reserved epsilon symbol itself.
pub(crate) fn find_symbol_char_noneps(alphabet: &Vec<Vec<char>>, c: char) -> (r: Option<usize>)
    ensures
        match r {
            Some(k) => find_char_symbol_noneps(texts_view(alphabet@), c) == Some(k as int),
            None => find_char_symbol_noneps(texts_view(alphabet@), c) is None,
        },
{
    let n = alphabet.len();
    let ghost av = texts_view(alphabet@);
    let mut k: usize = 0;
    proof {
        assert(av.skip(0) =~= av);
    }
    while k < n
        invariant
            0 <= k <= n,
            n == alphabet@.len(),
            av == texts_view(alphabet@),
            find_char_symbol_noneps(av, c) == match find_char_symbol_noneps(av.skip(k as int), c) {
                Some(m) => Some(m + k as int),
                None => None::<int>,
            },
        decreases n - k,
    {
        proof {
            assert(av.skip(k as int)[0] == av[k as int]);
            assert(av.skip(k as int).drop_first() =~= av.skip(k as int + 1));
        }
        let sym = &alphabet[k];
        if sym.len() == 1 && sym[0] == c && !(sym[0] == '\u{03b5}') {
            proof {
                assert(av[k as int].len() == 1);
                assert(av[k as int][0] == c);
                if av[k as int] == eps_text() {
                    assert(av[k as int][0] == eps_text()[0]);
                }
            }
            return Some(k);
        }
        proof {
            if !(sym@.len() == 1 && sym@[0] == c) {
            } else {
                assert(sym@[0] == '\u{03b5}');
                assert(av[k as int] =~= eps_text());
            }
        }
        k = k + 1;
    }
    proof {
        assert(av.skip(n as int).len() == 0);
    }
    None
}


pub proof fn lemma_find_char_symbol(alphabet: Seq<Seq<char>>, c: char)
    ensures
        find_char_symbol(alphabet, c) matches Some(k) ==> 0 <= k < alphabet.len()
            && alphabet[k].len() == 1 && alphabet[k][0] == c,
    decreases alphabet.len(),
{
    if alphabet.len() > 0 && !(alphabet[0].len() == 1 && alphabet[0][0] == c) {
        lemma_find_char_symbol(alphabet.drop_first(), c);
    }
}

pub proof fn lemma_find_char_symbol_noneps(alphabet: Seq<Seq<char>>, c: char)
    ensures
        find_char_symbol_noneps(alphabet, c) matches Some(k) ==> 0 <= k < alphabet.len()
            && alphabet[k].len() == 1 && alphabet[k][0] == c && alphabet[k] != eps_text(),
    decreases alphabet.len(),
{
    if alphabet.len() > 0 && !(alphabet[0].len() == 1 && alphabet[0][0] == c && alphabet[0]
        != eps_text()) {
        lemma_find_char_symbol_noneps(alphabet.drop_first(), c);
    }
}


/// Copies a list of name strings.
pub(crate) fn copy_all(v: &Vec<Vec<char>>) -> (r: Vec<Vec<char>>)
    ensures
        texts_view(r@) == texts_view(v@),
{
    let mut out: Vec<Vec<char>> = Vec::new();
    let mut k: usize = 0;
    while k < v.len()
        invariant
            0 <= k <= v@.len(),
            out@.len() == k,
            forall|m: int| 0 <= m < k ==> (#[trigger] out@[m])@ == v@[m]@,
        decreases v@.len() - k,
    {
        out.push(copy_chars(&v[k]));
        k = k + 1;
    }
    proof {
        assert(texts_view(out@) =~= texts_view(v@));
    }
    out
}

} // verus!
