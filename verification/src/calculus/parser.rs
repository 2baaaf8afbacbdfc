//! The parser of the plain pi calculus. From the loosest to the tightest:
//! parallel composition `P|Q`, choice `P+Q`, restriction `\x.P`, actions
//! `a<b>.P` and `a[b].P`, and the primary terms `0` and `(P)`. Spaces mean
//! nothing.

use super::errors::ParseError;
use super::syntax::{AtomicAction, AtomicActionView, Process, ProcessView};
use crate::text::{chars_of, string_of};
use vstd::prelude::*;
use vstd::string::StringExecFns;

verus! {

/// Whether `c` has the Unicode property Alphabetic.
pub uninterp spec fn char_is_alphabetic(c: char) -> bool;

/// `char::is_alphabetic` of the standard library: whether the character
/// has the Unicode property Alphabetic.
#[verifier::external_body]
fn is_alphabetic(c: char) -> (b: bool)
    ensures
        b == char_is_alphabetic(c),
{
    c.is_alphabetic()
}

/// Why a text is no term.
pub enum Fault {
    /// Something follows the term.
    Trailing,
    /// A backslash is not followed by a name and a dot.
    Restriction,
    /// An action is neither `a<b>` nor `a[b]`.
    Action,
    /// An action is followed by something else than a dot or the end.
    Prefix,
    /// A term is missing.
    Empty,
    /// A parenthesis is not closed.
    Unclosed,
    /// A term begins with something else than `0` or `(`.
    Primary,
}

/// The message for a fault that was met where `rest` was left to read.
pub open spec fn fault_text(fault: Fault, rest: Seq<char>) -> Seq<char> {
    match fault {
        Fault::Trailing => "Unexpected token(s) - expected empty end of input: "@ + rest,
        Fault::Restriction => "Unexpected token for new expression - expected \\x.P: "@ + rest,
        Fault::Action => "Unexpected token(s) for action - expected a<b> or a[b]: "@ + rest,
        Fault::Prefix => "Unexpected token for atomic action - expected '.' or end of input: "@
            + rest,
        Fault::Empty => "Empty input"@,
        Fault::Unclosed => "Unexpected token for paranthesis expression - expected ')': "@ + rest,
        Fault::Primary => "Unexpected token for primary expression - expected 0 or '(': "@ + rest,
    }
}

/// What reading a part of a text gives: a value and the place where the
/// rest begins, or a fault and the place where what could not be read
/// begins.
pub type Reading<T> = Result<(T, int), (Fault, int)>;

/// The text without its spaces.
pub open spec fn without_spaces(s: Seq<char>) -> Seq<char>
    decreases s.len(),
{
    if s.len() == 0 {
        s
    } else if s.last() == ' ' {
        without_spaces(s.drop_last())
    } else {
        without_spaces(s.drop_last()).push(s.last())
    }
}

/// The first place at or after `from` where `s` holds `c`; the length of
/// `s` where there is none.
pub open spec fn find_from(s: Seq<char>, from: int, c: char) -> int
    decreases s.len() - from,
{
    if from < 0 || from >= s.len() {
        s.len() as int
    } else if s[from] == c {
        from
    } else {
        find_from(s, from + 1, c)
    }
}

/// An action in brackets that begins at `pos`: the channel is what stands
/// before the first `open`, the name what stands between it and the next
/// `close`; neither is empty and they differ.
pub open spec fn bracketed(s: Seq<char>, pos: int, open: char, close: char) -> Option<
    (Seq<char>, Seq<char>),
> {
    let i = find_from(s, pos, open);
    let j = find_from(s, i + 1, close);
    if i < s.len() && j < s.len() {
        let name_ch = s.subrange(pos, i);
        let name_val = s.subrange(i + 1, j);
        if name_ch.len() > 0 && name_val.len() > 0 && name_val != name_ch {
            Some((name_ch, name_val))
        } else {
            None
        }
    } else {
        None
    }
}

/// The action that begins at `pos`: a send `a<b>`, or else a receive
/// `a[b]`. What follows it begins after the first closing bracket of its
/// kind.
pub open spec fn read_action(s: Seq<char>, pos: int) -> Reading<AtomicActionView> {
    match bracketed(s, pos, '<', '>') {
        Some((ch, val)) => Ok((AtomicActionView::Send(ch, val), find_from(s, pos, '>') + 1)),
        None => match bracketed(s, pos, '[', ']') {
            Some((ch, val)) => Ok(
                (AtomicActionView::Receive(ch, val), find_from(s, pos, ']') + 1),
            ),
            None => Err((Fault::Action, pos)),
        },
    }
}

/// What is still to read from `pos`, as a measure.
pub open spec fn left(s: Seq<char>, pos: int) -> nat {
    if pos <= s.len() {
        (s.len() - pos) as nat
    } else {
        0
    }
}

/// The parallel composition that begins at `pos`.
pub open spec fn read_par(s: Seq<char>, letters: Seq<bool>, pos: int) -> Reading<ProcessView>
    decreases left(s, pos), 6nat,
{
    match read_sum(s, letters, pos) {
        Ok((term, p)) => if pos <= p {
            read_par_more(s, letters, term, p)
        } else {
            Ok((term, p))
        },
        Err(e) => Err(e),
    }
}

/// The rest of a parallel composition whose components so far make `term`.
pub open spec fn read_par_more(s: Seq<char>, letters: Seq<bool>, term: ProcessView, pos: int) -> Reading<ProcessView>
    decreases left(s, pos), 5nat,
{
    if 0 <= pos < s.len() && s[pos] == '|' {
        match read_sum(s, letters, pos + 1) {
            Ok((term2, p)) => if pos < p {
                read_par_more(s, letters, ProcessView::Par(Box::new(term), Box::new(term2)), p)
            } else {
                Ok((term2, p))
            },
            Err(e) => Err(e),
        }
    } else {
        Ok((term, pos))
    }
}

/// The choice that begins at `pos`.
pub open spec fn read_sum(s: Seq<char>, letters: Seq<bool>, pos: int) -> Reading<ProcessView>
    decreases left(s, pos), 4nat,
{
    match read_new(s, letters, pos) {
        Ok((term, p)) => if pos <= p {
            read_sum_more(s, letters, term, p)
        } else {
            Ok((term, p))
        },
        Err(e) => Err(e),
    }
}

/// The rest of a choice whose alternatives so far make `term`.
pub open spec fn read_sum_more(s: Seq<char>, letters: Seq<bool>, term: ProcessView, pos: int) -> Reading<ProcessView>
    decreases left(s, pos), 3nat,
{
    if 0 <= pos < s.len() && s[pos] == '+' {
        match read_new(s, letters, pos + 1) {
            Ok((term2, p)) => if pos < p {
                read_sum_more(s, letters, ProcessView::Sum(Box::new(term), Box::new(term2)), p)
            } else {
                Ok((term2, p))
            },
            Err(e) => Err(e),
        }
    } else {
        Ok((term, pos))
    }
}

/// The restriction that begins at `pos`, or else the action term.
pub open spec fn read_new(s: Seq<char>, letters: Seq<bool>, pos: int) -> Reading<ProcessView>
    decreases left(s, pos), 2nat,
{
    if 0 <= pos < s.len() && s[pos] == '\\' {
        let dot = find_from(s, pos + 1, '.');
        if dot < s.len() && dot > pos + 1 {
            match read_new(s, letters, dot + 1) {
                Ok((term, p)) => Ok(
                    (ProcessView::New(s.subrange(pos + 1, dot), Box::new(term)), p),
                ),
                Err(e) => Err(e),
            }
        } else {
            Err((Fault::Restriction, pos))
        }
    } else {
        read_atomic_action(s, letters, pos)
    }
}

/// The action term that begins at `pos`: an action and what follows it
/// after a dot, or an action at the end of the text, or else a primary term.
pub open spec fn read_atomic_action(s: Seq<char>, letters: Seq<bool>, pos: int) -> Reading<ProcessView>
    decreases left(s, pos), 1nat,
{
    if 0 <= pos < s.len() && pos < letters.len() && letters[pos] {
        match read_action(s, pos) {
            Ok((action, p)) => if p == s.len() {
                Ok((ProcessView::Prefix(action, Box::new(ProcessView::End)), p))
            } else if pos < p < s.len() && s[p] == '.' {
                match read_atomic_action(s, letters, p + 1) {
                    Ok((term, p2)) => Ok((ProcessView::Prefix(action, Box::new(term)), p2)),
                    Err(e) => Err(e),
                }
            } else {
                Err((Fault::Prefix, pos))
            },
            Err(e) => Err(e),
        }
    } else {
        read_primary(s, letters, pos)
    }
}

/// The primary term that begins at `pos`: `0`, or a term in parentheses.
pub open spec fn read_primary(s: Seq<char>, letters: Seq<bool>, pos: int) -> Reading<ProcessView>
    decreases left(s, pos), 0nat,
{
    if !(0 <= pos < s.len()) {
        Err((Fault::Empty, pos))
    } else if s[pos] == '(' {
        match read_par(s, letters, pos + 1) {
            Ok((term, p)) => if 0 <= p < s.len() && s[p] == ')' {
                Ok((term, p + 1))
            } else {
                Err((Fault::Unclosed, pos))
            },
            Err(e) => Err(e),
        }
    } else if s[pos] == '0' {
        Ok((ProcessView::End, pos + 1))
    } else {
        Err((Fault::Primary, pos))
    }
}

/// For each character of `s`, whether it is a letter: whether it has the
/// Unicode property Alphabetic.
pub open spec fn letter_flags(s: Seq<char>) -> Seq<bool> {
    Seq::new(s.len(), |i: int| char_is_alphabetic(s[i]))
}

/// The term that the characters `s` are, where `letters` says of each
/// whether it is a letter: the whole of `s` must be one parallel
/// composition. Where it is none, the message of the first fault.
pub open spec fn read_text(s: Seq<char>, letters: Seq<bool>) -> Result<ProcessView, Seq<char>> {
    match read_par(s, letters, 0) {
        Ok((term, p)) => if p >= s.len() {
            Ok(term)
        } else {
            Err(fault_text(Fault::Trailing, s.subrange(p, s.len() as int)))
        },
        Err((fault, at)) => Err(fault_text(fault, s.subrange(at, s.len() as int))),
    }
}

/// The term that the text `input` is, once its spaces are taken out.
pub open spec fn read_term(input: Seq<char>) -> Result<ProcessView, Seq<char>> {
    read_text(without_spaces(input), letter_flags(without_spaces(input)))
}

/// Whether the outcome `r` of reading `s` is what `want` says: the same
/// term and place, or the message of the same fault.
pub open spec fn agrees<T: View>(
    r: Result<(T, usize), ParseError>,
    want: Reading<T::V>,
    s: Seq<char>,
) -> bool {
    match (r, want) {
        (Ok((t, p)), Ok((tv, pv))) => t@ == tv && p == pv,
        (Err(e), Err((fault, at))) => e@ == fault_text(fault, s.subrange(at, s.len() as int)),
        _ => false,
    }
}

/// `find_from` gives the first place of `c` at or after `from`.
pub proof fn lemma_find_from(s: Seq<char>, from: int, c: char)
    requires
        0 <= from <= s.len(),
    ensures
        from <= find_from(s, from, c) <= s.len(),
        find_from(s, from, c) < s.len() ==> s[find_from(s, from, c)] == c,
        forall|k: int| from <= k < find_from(s, from, c) ==> s[k] != c,
    decreases s.len() - from,
{
    if from < s.len() && s[from] != c {
        lemma_find_from(s, from + 1, c);
    }
}

/// The first place at or after `from` where `s` holds `c`; the length of
/// `s` where there is none.
fn find_char(s: &Vec<char>, from: usize, c: char) -> (r: usize)
    requires
        from <= s.len(),
    ensures
        r == find_from(s@, from as int, c),
        from <= r <= s.len(),
{
    let mut i: usize = from;
    while i < s.len()
        invariant
            from <= i <= s.len(),
            find_from(s@, i as int, c) == find_from(s@, from as int, c),
        decreases s.len() - i,
    {
        if s[i] == c {
            return i;
        }
        i += 1;
    }
    i
}

/// The error for the fault `kind`, met where `s[at..]` was left to read.
fn fault(kind: Fault, s: &Vec<char>, at: usize) -> (e: ParseError)
    requires
        at <= s.len(),
    ensures
        e@ == fault_text(kind, s@.subrange(at as int, s.len() as int)),
{
    let rest = string_of(s, at, s.len());
    let mut msg = match kind {
        Fault::Trailing => String::from_str("Unexpected token(s) - expected empty end of input: "),
        Fault::Restriction => String::from_str(
            "Unexpected token for new expression - expected \\x.P: ",
        ),
        Fault::Action => String::from_str(
            "Unexpected token(s) for action - expected a<b> or a[b]: ",
        ),
        Fault::Prefix => String::from_str(
            "Unexpected token for atomic action - expected '.' or end of input: ",
        ),
        Fault::Empty => {
            return ParseError::Msg(String::from_str("Empty input"));
        },
        Fault::Unclosed => String::from_str(
            "Unexpected token for paranthesis expression - expected ')': ",
        ),
        Fault::Primary => String::from_str(
            "Unexpected token for primary expression - expected 0 or '(': ",
        ),
    };
    msg.append(rest.as_str());
    ParseError::Msg(msg)
}

fn bracket(s: &Vec<char>, pos: usize, open: char, close: char) -> (r: Option<(String, String)>)
    requires
        pos <= s.len(),
    ensures
        match (r, bracketed(s@, pos as int, open, close)) {
            (Some((ch, val)), Some((chv, valv))) => ch@ == chv && val@ == valv,
            (None, None) => true,
            _ => false,
        },
{
    let i = find_char(s, pos, open);
    if i >= s.len() {
        return None;
    }
    let j = find_char(s, i + 1, close);
    if j >= s.len() {
        return None;
    }
    let name_ch = string_of(s, pos, i);
    let name_val = string_of(s, i + 1, j);
    if i > pos && j > i + 1 && !(name_val == name_ch) {
        Some((name_ch, name_val))
    } else {
        None
    }
}

fn parse_action(s: &Vec<char>, pos: usize) -> (r: Result<(AtomicAction, usize), ParseError>)
    requires
        pos <= s.len(),
    ensures
        agrees(r, read_action(s@, pos as int), s@),
        r matches Ok((_, p)) ==> pos < p <= s.len(),
{
    if let Some((ch, val)) = bracket(s, pos, '<', '>') {
        proof {
            let i = find_from(s@, pos as int, '<');
            lemma_find_from(s@, pos as int, '<');
            lemma_find_from(s@, i + 1, '>');
            lemma_find_from(s@, pos as int, '>');
        }
        let suffix_pos = find_char(s, pos, '>') + 1;
        return Ok((AtomicAction::Send(ch, val), suffix_pos));
    }
    if let Some((ch, val)) = bracket(s, pos, '[', ']') {
        proof {
            let i = find_from(s@, pos as int, '[');
            lemma_find_from(s@, pos as int, '[');
            lemma_find_from(s@, i + 1, ']');
            lemma_find_from(s@, pos as int, ']');
        }
        let suffix_pos = find_char(s, pos, ']') + 1;
        return Ok((AtomicAction::Receive(ch, val), suffix_pos));
    }
    Err(fault(Fault::Action, s, pos))
}

fn parse_par(s: &Vec<char>, letters: &Vec<bool>, pos: usize) -> (r: Result<(Process, usize), ParseError>)
    requires
        pos <= s.len(),
        letters.len() == s.len(),
    ensures
        agrees(r, read_par(s@, letters@, pos as int), s@),
        r matches Ok((_, p)) ==> pos <= p <= s.len(),
    decreases s.len() - pos, 6nat,
{
    let (mut term, mut rest) = match parse_sum(s, letters, pos) {
        Ok(x) => x,
        Err(e) => {
            return Err(e);
        },
    };
    while rest < s.len() && s[rest] == '|'
        invariant
            pos <= rest <= s.len(),
            letters.len() == s.len(),
            read_par_more(s@, letters@, term@, rest as int) == read_par(s@, letters@, pos as int),
        decreases s.len() - rest,
    {
        let (term2, rest2) = match parse_sum(s, letters, rest + 1) {
            Ok(x) => x,
            Err(e) => {
                return Err(e);
            },
        };
        term = Process::Par(Box::new(term), Box::new(term2));
        rest = rest2;
    }
    Ok((term, rest))
}

fn parse_sum(s: &Vec<char>, letters: &Vec<bool>, pos: usize) -> (r: Result<(Process, usize), ParseError>)
    requires
        pos <= s.len(),
        letters.len() == s.len(),
    ensures
        agrees(r, read_sum(s@, letters@, pos as int), s@),
        r matches Ok((_, p)) ==> pos <= p <= s.len(),
    decreases s.len() - pos, 4nat,
{
    let (mut term, mut rest) = match parse_new(s, letters, pos) {
        Ok(x) => x,
        Err(e) => {
            return Err(e);
        },
    };
    while rest < s.len() && s[rest] == '+'
        invariant
            pos <= rest <= s.len(),
            letters.len() == s.len(),
            read_sum_more(s@, letters@, term@, rest as int) == read_sum(s@, letters@, pos as int),
        decreases s.len() - rest,
    {
        let (term2, rest2) = match parse_new(s, letters, rest + 1) {
            Ok(x) => x,
            Err(e) => {
                return Err(e);
            },
        };
        term = Process::Sum(Box::new(term), Box::new(term2));
        rest = rest2;
    }
    Ok((term, rest))
}

fn parse_new(s: &Vec<char>, letters: &Vec<bool>, pos: usize) -> (r: Result<(Process, usize), ParseError>)
    requires
        pos <= s.len(),
        letters.len() == s.len(),
    ensures
        agrees(r, read_new(s@, letters@, pos as int), s@),
        r matches Ok((_, p)) ==> pos <= p <= s.len(),
    decreases s.len() - pos, 2nat,
{
    if pos < s.len() && s[pos] == '\\' {
        let dot = find_char(s, pos + 1, '.');
        if dot < s.len() && dot > pos + 1 {
            let name = string_of(s, pos + 1, dot);
            match parse_new(s, letters, dot + 1) {
                Ok((term, rest)) => Ok((Process::New(name, Box::new(term)), rest)),
                Err(e) => Err(e),
            }
        } else {
            Err(fault(Fault::Restriction, s, pos))
        }
    } else {
        parse_atomic_action(s, letters, pos)
    }
}

fn parse_atomic_action(s: &Vec<char>, letters: &Vec<bool>, pos: usize) -> (r: Result<(Process, usize), ParseError>)
    requires
        pos <= s.len(),
        letters.len() == s.len(),
    ensures
        agrees(r, read_atomic_action(s@, letters@, pos as int), s@),
        r matches Ok((_, p)) ==> pos <= p <= s.len(),
    decreases s.len() - pos, 1nat,
{
    if pos < s.len() && letters[pos] {
        let (action, rest) = match parse_action(s, pos) {
            Ok(x) => x,
            Err(e) => {
                return Err(e);
            },
        };
        if rest == s.len() {
            let end = Process::End;
            assert(end@ == ProcessView::End);
            Ok((Process::Prefix(action, Box::new(end)), rest))
        } else if s[rest] == '.' {
            match parse_atomic_action(s, letters, rest + 1) {
                Ok((term, rest2)) => Ok((Process::Prefix(action, Box::new(term)), rest2)),
                Err(e) => Err(e),
            }
        } else {
            Err(fault(Fault::Prefix, s, pos))
        }
    } else {
        parse_primary(s, letters, pos)
    }
}

fn parse_primary(s: &Vec<char>, letters: &Vec<bool>, pos: usize) -> (r: Result<(Process, usize), ParseError>)
    requires
        pos <= s.len(),
        letters.len() == s.len(),
    ensures
        agrees(r, read_primary(s@, letters@, pos as int), s@),
        r matches Ok((_, p)) ==> pos <= p <= s.len(),
    decreases s.len() - pos, 0nat,
{
    if pos >= s.len() {
        return Err(fault(Fault::Empty, s, pos));
    }
    if s[pos] == '(' {
        let (term, rest) = match parse_par(s, letters, pos + 1) {
            Ok(x) => x,
            Err(e) => {
                return Err(e);
            },
        };
        if rest < s.len() && s[rest] == ')' {
            return Ok((term, rest + 1));
        }
        return Err(fault(Fault::Unclosed, s, pos));
    }
    if s[pos] == '0' {
        return Ok((Process::End, pos + 1));
    }
    Err(fault(Fault::Primary, s, pos))
}

/// The characters of `input` without the spaces.
fn strip_spaces(input: &str) -> (r: Vec<char>)
    ensures
        r@ == without_spaces(input@),
{
    let all = chars_of(input);
    let mut r: Vec<char> = Vec::new();
    let mut i: usize = 0;
    assert(all@.take(0) =~= Seq::<char>::empty());
    while i < all.len()
        invariant
            i <= all.len(),
            r@ == without_spaces(all@.take(i as int)),
        decreases all.len() - i,
    {
        assert(all@.take(i + 1).drop_last() =~= all@.take(i as int));
        if all[i] != ' ' {
            r.push(all[i]);
        }
        i += 1;
    }
    assert(all@.take(all.len() as int) =~= all@);
    r
}

/// For each character of `s`, whether it is a letter.
fn flags_of(s: &Vec<char>) -> (r: Vec<bool>)
    ensures
        r@ == letter_flags(s@),
{
    let mut r: Vec<bool> = Vec::new();
    let mut i: usize = 0;
    while i < s.len()
        invariant
            i <= s.len(),
            r.len() == i,
            forall|j: int| 0 <= j < i ==> r[j] == char_is_alphabetic(s[j]),
        decreases s.len() - i,
    {
        r.push(is_alphabetic(s[i]));
        i += 1;
    }
    assert(r@ =~= letter_flags(s@));
    r
}

/// Parses the characters `s`, none of them a space, into the term that they
/// are, where `letters` says of each character whether it is a letter: `Ok`
/// with the term where `s` is one term from its first character to its
/// last, and `Err` with the message of the first fault else.
pub fn parse_chars(s: &Vec<char>, letters: &Vec<bool>) -> (r: Result<Process, ParseError>)
    requires
        letters.len() == s.len(),
    ensures
        match (r, read_text(s@, letters@)) {
            (Ok(t), Ok(tv)) => t@ == tv,
            (Err(e), Err(msg)) => e@ == msg,
            _ => false,
        },
{
    let (term, rest) = match parse_par(s, letters, 0) {
        Ok(x) => x,
        Err(e) => {
            return Err(e);
        },
    };
    if rest < s.len() {
        return Err(fault(Fault::Trailing, s, rest));
    }
    Ok(term)
}

/// Parses `input` into the term of the pi calculus that it is: `Ok` with
/// the term where the text, without its spaces, is one term from its first
/// character to its last, and `Err` with the message of the first fault
/// else. A character is a letter where it has the Unicode property
/// Alphabetic.
pub fn parse(input: &str) -> (r: Result<Process, ParseError>)
    ensures
        match (r, read_term(input@)) {
            (Ok(t), Ok(tv)) => t@ == tv,
            (Err(e), Err(msg)) => e@ == msg,
            _ => false,
        },
{
    let s = strip_spaces(input);
    let letters = flags_of(&s);
    parse_chars(&s, &letters)
}

} // verus!
