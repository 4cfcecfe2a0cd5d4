use vstd::prelude::*;

use crate::conditions::{kind_from_name, ConditionKind, ParseError};
use crate::lex::{lex, lex_from, lexes_to, LexError, TextPos, Token};
use crate::routine::{can_call_routines, is_reserved, spec_can_call_routines, spec_is_reserved};
use crate::text::str_eq;

verus! {

/// The tokens fed one by one into a condition node
pub open spec fn feed(k: ConditionKind, toks: Seq<(Token, TextPos)>) -> Result<ConditionKind, ParseError>
    decreases toks.len(),
{
    if toks.len() == 0 {
        Ok(k)
    } else {
        match feed(k, toks.drop_last()) {
            Ok(k2) => k2.step(toks.last().0, toks.last().1),
            Err(e) => Err(e),
        }
    }
}

/// An error in a whole condition
#[derive(Debug, Clone, PartialEq, Eq)]
pub enum ConditionError {
    /// There were no tokens
    Empty,
    /// A token was wrong
    Parse(ParseError),
    /// The tokens ended before every slot was filled
    Unfinished,
}

/// A fed condition as a whole condition: it must be finished
pub open spec fn finish_condition(r: Result<ConditionKind, ParseError>) -> Result<
    ConditionKind,
    ConditionError,
> {
    match r {
        Ok(k) => if k.finished() {
            Ok(k)
        } else {
            Err(ConditionError::Unfinished)
        },
        Err(e) => Err(ConditionError::Parse(e)),
    }
}

/// The condition that a token stream describes
pub open spec fn condition_of(toks: Seq<(Token, TextPos)>) -> Result<ConditionKind, ConditionError> {
    if toks.len() == 0 {
        Err(ConditionError::Empty)
    } else {
        match toks[0].0 {
            Token::Ident(name) => match kind_from_name(name@) {
                Some(k) => finish_condition(feed(k, toks.subrange(1, toks.len() as int))),
                None => Err(ConditionError::Parse(ParseError::UnknownCondition(name, toks[0].1))),
            },
            _ => Err(ConditionError::Parse(ParseError::UnexpectedToken(toks[0].0, toks[0].1))),
        }
    }
}

/// Parses a whole condition from its tokens: a condition keyword, then the tokens that fill
/// its slots, with `and` / `or` chaining further conditions to the left
pub fn parse_condition(toks: &Vec<(Token, TextPos)>) -> (r: Result<ConditionKind, ConditionError>)
    ensures
        r == condition_of(toks@),
{
    if toks.len() == 0 {
        return Err(ConditionError::Empty);
    }
    let mut k = match &toks[0].0 {
        Token::Ident(name) => match ConditionKind::parse_from_str(name.as_str()) {
            Some(k) => k,
            None => {
                return Err(
                    ConditionError::Parse(ParseError::UnknownCondition(name.clone(), toks[0].1)),
                );
            },
        },
        tok => {
            return Err(ConditionError::Parse(ParseError::UnexpectedToken(tok.duplicate(), toks[0].1)));
        },
    };
    let ghost k0 = k;
    let ghost rest = toks@.subrange(1, toks@.len() as int);
    assert(condition_of(toks@) == finish_condition(feed(k0, rest)));
    let mut i: usize = 1;
    while i < toks.len()
        invariant
            1 <= i <= toks@.len(),
            rest == toks@.subrange(1, toks@.len() as int),
            condition_of(toks@) == finish_condition(feed(k0, rest)),
            feed(k0, rest.subrange(0, i - 1)) == Ok::<ConditionKind, ParseError>(k),
        decreases toks@.len() - i,
    {
        let ghost pre = rest.subrange(0, i as int);
        assert(pre.drop_last() =~= rest.subrange(0, i - 1));
        assert(pre.last() == toks@[i as int]);
        match k.parse(&toks[i].0, &toks[i].1) {
            Ok(()) => {},
            Err(e) => {
                proof {
                    assert(feed(k0, pre) == Err::<ConditionKind, ParseError>(e));
                    lemma_feed_error_stays(k0, rest, i as int);
                }
                return Err(ConditionError::Parse(e));
            },
        }
        i = i + 1;
    }
    assert(rest.subrange(0, i - 1) =~= rest);
    if k.is_finished_parsing() {
        Ok(k)
    } else {
        Err(ConditionError::Unfinished)
    }
}

/// Once feeding fails, feeding more tokens fails with the same error
proof fn lemma_feed_error_stays(k: ConditionKind, toks: Seq<(Token, TextPos)>, n: int)
    requires
        0 < n <= toks.len(),
        feed(k, toks.subrange(0, n)) is Err,
    ensures
        feed(k, toks) == feed(k, toks.subrange(0, n)),
    decreases toks.len() - n,
{
    if n < toks.len() {
        assert(toks.subrange(0, n + 1).drop_last() =~= toks.subrange(0, n));
        lemma_feed_error_stays(k, toks, n + 1);
    } else {
        assert(toks.subrange(0, n) =~= toks);
    }
}

/// The outcome of parsing a condition from tokens, as an outcome for text
pub open spec fn condition_outcome(toks: Seq<(Token, TextPos)>) -> Result<ConditionKind, ScriptError> {
    match condition_of(toks) {
        Ok(k) => Ok(k),
        Err(e) => Err(ScriptError::Condition(e)),
    }
}

/// Reads a condition from descriptor text: the text is read into tokens, and the tokens are
/// parsed as one condition
pub fn parse_condition_text(text: &str) -> (r: Result<ConditionKind, ScriptError>)
    requires
        text@.len() < usize::MAX,
    ensures
        lex_from(text@, 0) is Err <==> r matches Err(ScriptError::Lex(_)),
        lex_from(text@, 0) is Ok ==> exists|toks: Seq<(Token, TextPos)>|
            lexes_to(text@, toks, lex_from(text@, 0)->Ok_0) && r == condition_outcome(toks),
        r matches Ok(k) ==> k.finished(),
{
    match lex(text) {
        Ok(toks) => {
            let r = match parse_condition(&toks) {
                Ok(k) => Ok(k),
                Err(e) => Err(ScriptError::Condition(e)),
            };
            assert(lexes_to(text@, toks@, lex_from(text@, 0)->Ok_0) && r == condition_outcome(
                toks@,
            ));
            r
        },
        Err(e) => Err(ScriptError::Lex(e)),
    }
}

/// A named section of a package script with the tokens of its body
#[derive(Debug, Clone, PartialEq, Eq)]
pub struct Routine {
    /// The name of the routine
    pub name: String,
    /// The tokens between the braces of the routine
    pub body: Vec<(Token, TextPos)>,
}

/// An error in the structure or rules of a package script
#[derive(Debug, Clone, PartialEq, Eq)]
pub enum ScriptError {
    /// The text could not be read into tokens
    Lex(LexError),
    /// A condition was malformed
    Condition(ConditionError),
    /// A token that cannot stand at this place in the routine structure
    UnexpectedToken(Token, TextPos),
    /// The body of the named routine is never closed
    Unclosed(String),
    /// A routine calls a reserved routine; holds the caller and the callee
    ReservedCall(String, String),
    /// A routine that may not call other routines does; holds the caller and the callee
    CallNotAllowed(String, String),
}

/// Whether a token is the word with the given text
pub open spec fn is_word(t: Token, w: Seq<char>) -> bool {
    t matches Token::Ident(s) && s@ == w
}

/// The position of the brace that closes a body opened before `i`, with `depth` braces open,
/// or the length when it is never closed
pub open spec fn closing_brace(toks: Seq<(Token, TextPos)>, i: int, depth: nat) -> int
    decreases toks.len() - i,
{
    if i < 0 || i >= toks.len() {
        toks.len() as int
    } else if toks[i].0 is CurlyClose {
        if depth <= 1 {
            i
        } else {
            closing_brace(toks, i + 1, (depth - 1) as nat)
        }
    } else if toks[i].0 is CurlyOpen {
        closing_brace(toks, i + 1, depth + 1)
    } else {
        closing_brace(toks, i + 1, depth)
    }
}

/// The routines of a script from token `i` on: each `@name { ... }` as its name with the
/// start and end of its body, or the error with the token where it happens
pub open spec fn routines_from(toks: Seq<(Token, TextPos)>, i: int) -> Result<
    Seq<(Seq<char>, int, int)>,
    ScriptError,
>
    decreases toks.len() - i,
{
    if i < 0 || i >= toks.len() {
        Ok(Seq::empty())
    } else if toks[i].0 is At && i + 2 < toks.len() && toks[i + 1].0 is Ident
        && toks[i + 2].0 is CurlyOpen {
        let name = toks[i + 1].0->Ident_0;
        let e = closing_brace(toks, i + 3, 1);
        if e < i + 3 || e >= toks.len() {
            Err(ScriptError::Unclosed(name))
        } else {
            match routines_from(toks, e + 1) {
                Ok(rest) => Ok(seq![(name@, i + 3, e)] + rest),
                Err(err) => Err(err),
            }
        }
    } else {
        Err(ScriptError::UnexpectedToken(toks[i].0, toks[i].1))
    }
}

proof fn lemma_closing_brace_bounds(toks: Seq<(Token, TextPos)>, i: int, depth: nat)
    requires
        0 <= i,
    ensures
        i <= closing_brace(toks, i, depth) <= toks.len() || (i > toks.len() && closing_brace(
            toks,
            i,
            depth,
        ) == toks.len()),
    decreases toks.len() - i,
{
    if i < toks.len() {
        if toks[i].0 is CurlyClose {
            if depth > 1 {
                lemma_closing_brace_bounds(toks, i + 1, (depth - 1) as nat);
            }
        } else if toks[i].0 is CurlyOpen {
            lemma_closing_brace_bounds(toks, i + 1, depth + 1);
        } else {
            lemma_closing_brace_bounds(toks, i + 1, depth);
        }
    }
}

/// Finds the brace that closes a body opened before `i`
fn find_closing_brace(toks: &Vec<(Token, TextPos)>, i: usize) -> (r: usize)
    requires
        i <= toks@.len() < usize::MAX,
    ensures
        r == closing_brace(toks@, i as int, 1),
        i <= r <= toks@.len(),
{
    let mut j = i;
    let mut depth: usize = 1;
    while j < toks.len()
        invariant
            i <= j <= toks@.len() < usize::MAX,
            depth >= 1,
            depth <= j - i + 1,
            closing_brace(toks@, i as int, 1) == closing_brace(toks@, j as int, depth as nat),
        decreases toks@.len() - j,
    {
        match &toks[j].0 {
            Token::CurlyClose => {
                if depth <= 1 {
                    return j;
                }
                depth = depth - 1;
            },
            Token::CurlyOpen => {
                depth = depth + 1;
            },
            _ => {},
        }
        j = j + 1;
    }
    j
}

/// Copies the tokens from `from` up to `to`
fn copy_tokens(toks: &Vec<(Token, TextPos)>, from: usize, to: usize) -> (r: Vec<(Token, TextPos)>)
    requires
        from <= to <= toks@.len(),
    ensures
        r@ == toks@.subrange(from as int, to as int),
{
    let mut out: Vec<(Token, TextPos)> = Vec::new();
    let mut k = from;
    while k < to
        invariant
            from <= k <= to <= toks@.len(),
            out@ == toks@.subrange(from as int, k as int),
        decreases to - k,
    {
        out.push((toks[k].0.duplicate(), toks[k].1));
        assert(out@ =~= toks@.subrange(from as int, k + 1));
        k = k + 1;
    }
    out
}

/// Whether routines hold exactly what the structure of the tokens gives
pub open spec fn routines_match(
    toks: Seq<(Token, TextPos)>,
    routines: Seq<Routine>,
    m: Seq<(Seq<char>, int, int)>,
) -> bool {
    &&& routines.len() == m.len()
    &&& forall|k: int|
        0 <= k < routines.len() ==> (#[trigger] routines[k]).name@ == m[k].0 && routines[k].body@
            == toks.subrange(m[k].1, m[k].2)
}

/// Splits the tokens of a script into its routines, each written `@name { ... }`
pub fn parse_routines(toks: &Vec<(Token, TextPos)>) -> (r: Result<Vec<Routine>, ScriptError>)
    requires
        toks@.len() < usize::MAX,
    ensures
        match r {
            Ok(rs) => routines_from(toks@, 0) matches Ok(m) && routines_match(toks@, rs@, m),
            Err(e) => routines_from(toks@, 0) == Err::<Seq<(Seq<char>, int, int)>, ScriptError>(e),
        },
{
    let mut out: Vec<Routine> = Vec::new();
    let ghost mut m: Seq<(Seq<char>, int, int)> = Seq::empty();
    let mut i: usize = 0;
    while i < toks.len()
        invariant
            i <= toks@.len() < usize::MAX,
            routines_match(toks@, out@, m),
            routines_from(toks@, 0) == match routines_from(toks@, i as int) {
                Ok(rest) => Ok(m + rest),
                Err(e) => Err(e),
            },
        decreases toks@.len() - i,
    {
        let well_formed = match (&toks[i].0, toks.len() - i > 2) {
            (Token::At, true) => {
                matches!(toks[i + 1].0, Token::Ident(..)) && matches!(toks[i + 2].0, Token::CurlyOpen)
            },
            _ => false,
        };
        if !well_formed {
            return Err(ScriptError::UnexpectedToken(toks[i].0.duplicate(), toks[i].1));
        }
        let name = match &toks[i + 1].0 {
            Token::Ident(name) => name.clone(),
            _ => String::new(),
        };
        let e = find_closing_brace(toks, i + 3);
        if e >= toks.len() {
            return Err(ScriptError::Unclosed(name));
        }
        let body = copy_tokens(toks, i + 3, e);
        let ghost item = (name@, i + 3, e as int);
        out.push(Routine { name, body });
        proof {
            assert(m.push(item) + routines_from(toks@, e + 1)->Ok_0 =~= m + (seq![item]
                + routines_from(toks@, e + 1)->Ok_0));
            m = m.push(item);
        }
        i = e + 1;
    }
    proof {
        assert(m + Seq::<(Seq<char>, int, int)>::empty() =~= m);
    }
    Ok(out)
}

/// Whether the body calls the named routine with `call name`
pub open spec fn calls(body: Seq<(Token, TextPos)>, callee: Seq<char>) -> bool {
    exists|k: int|
        0 <= k < body.len() - 1 && is_word(#[trigger] body[k].0, "call"@) && is_word(
            body[k + 1].0,
            callee,
        )
}

/// Whether the routines keep the rules on calls: no routine calls a reserved routine, and
/// the routines that may not call others call none
pub open spec fn routines_valid(routines: Seq<Routine>) -> bool {
    forall|r: int, callee: Seq<char>|
        0 <= r < routines.len() && #[trigger] calls(routines[r].body@, callee) ==> !spec_is_reserved(
            callee,
        ) && spec_can_call_routines(routines[r].name@)
}

/// Whether the routine keeps the rules on calls
pub open spec fn routine_valid(routine: Routine) -> bool {
    forall|callee: Seq<char>| #[trigger]
        calls(routine.body@, callee) ==> call_allowed(routine.name@, callee)
}

/// The routine that the body calls at position `k`, if a call stands there
pub open spec fn call_at(body: Seq<(Token, TextPos)>, k: int) -> Option<Seq<char>> {
    if 0 <= k < body.len() - 1 && is_word(body[k].0, "call"@) && body[k + 1].0 is Ident {
        Some(body[k + 1].0->Ident_0@)
    } else {
        None
    }
}

/// Whether a routine with the given name may call the callee
pub open spec fn call_allowed(caller: Seq<char>, callee: Seq<char>) -> bool {
    !spec_is_reserved(callee) && spec_can_call_routines(caller)
}

/// Checks the rules on calls for one routine
fn check_routine(routine: &Routine) -> (r: Result<(), ScriptError>)
    ensures
        r is Ok <==> routine_valid(*routine),
        r matches Err(e) ==> !(e is Lex),
{
    let mut j: usize = 0;
    while j < routine.body.len() && j + 1 < routine.body.len()
        invariant
            forall|j2: int|
                0 <= j2 < j ==> (#[trigger] call_at(routine.body@, j2) matches Some(c) ==> call_allowed(
                    routine.name@,
                    c,
                )),
        decreases routine.body@.len() - j,
    {
        let is_call = match &routine.body[j].0 {
            Token::Ident(w) => str_eq(w.as_str(), "call"),
            _ => false,
        };
        if is_call {
            if let Token::Ident(callee) = &routine.body[j + 1].0 {
                assert(call_at(routine.body@, j as int) == Some(callee@));
                if !can_call_routines(routine.name.as_str()) || is_reserved(callee.as_str()) {
                    proof {
                        assert(is_word(routine.body@[j + 1].0, callee@));
                        assert(calls(routine.body@, callee@));
                        assert(!call_allowed(routine.name@, callee@));
                        assert(calls(routine.body@, callee@));
                    }
                    if !can_call_routines(routine.name.as_str()) {
                        return Err(ScriptError::CallNotAllowed(routine.name.clone(), callee.clone()));
                    }
                    return Err(ScriptError::ReservedCall(routine.name.clone(), callee.clone()));
                }
            }
        }
        j = j + 1;
    }
    proof {
        assert forall|callee: Seq<char>| #[trigger] calls(routine.body@, callee) implies call_allowed(
            routine.name@,
            callee,
        ) by {
            let k = choose|k: int|
                0 <= k < routine.body@.len() - 1 && is_word(#[trigger] routine.body@[k].0, "call"@) && is_word(
                    routine.body@[k + 1].0,
                    callee,
                );
            assert(call_at(routine.body@, k) == Some(callee));
        }
    }
    Ok(())
}

/// Checks the rules on routine calls
pub fn validate_routines(routines: &Vec<Routine>) -> (r: Result<(), ScriptError>)
    ensures
        r is Ok <==> routines_valid(routines@),
        r matches Err(e) ==> !(e is Lex),
{
    let mut r: usize = 0;
    while r < routines.len()
        invariant
            r <= routines@.len(),
            forall|r2: int| 0 <= r2 < r ==> routine_valid(#[trigger] routines@[r2]),
        decreases routines@.len() - r,
    {
        if let Err(e) = check_routine(&routines[r]) {
            assert(!routines_valid(routines@)) by {
                let callee = choose|callee: Seq<char>| #[trigger]
                    calls(routines@[r as int].body@, callee) && !(!spec_is_reserved(callee)
                        && spec_can_call_routines(routines@[r as int].name@));
            }
            return Err(e);
        }
        r = r + 1;
    }
    assert forall|r2: int, callee: Seq<char>|
        0 <= r2 < routines@.len() && #[trigger] calls(routines@[r2].body@, callee) implies !spec_is_reserved(
        callee,
    ) && spec_can_call_routines(routines@[r2].name@) by {
        assert(routine_valid(routines@[r2]));
    }
    Ok(())
}

/// Whether the routines that the token structure gives keep the rules on calls
pub open spec fn routines_valid_model(
    toks: Seq<(Token, TextPos)>,
    m: Seq<(Seq<char>, int, int)>,
) -> bool {
    forall|k: int, callee: Seq<char>|
        0 <= k < m.len() && #[trigger] calls(toks.subrange(m[k].1, m[k].2), callee) ==> call_allowed(
            m[k].0,
            callee,
        )
}

/// The outcome of checking a script that was read into the given tokens
pub open spec fn script_outcome(toks: Seq<(Token, TextPos)>, r: Result<Vec<Routine>, ScriptError>) -> bool {
    match routines_from(toks, 0) {
        Err(e) => r == Err::<Vec<Routine>, ScriptError>(e),
        Ok(m) => (r is Ok <==> routines_valid_model(toks, m)) && (r matches Ok(rs)
            ==> routines_match(toks, rs@, m)),
    }
}

/// Checks the routines of a script that was read into tokens
pub fn validate_tokens(toks: &Vec<(Token, TextPos)>) -> (r: Result<Vec<Routine>, ScriptError>)
    requires
        toks@.len() < usize::MAX,
    ensures
        script_outcome(toks@, r),
        r matches Ok(rs) ==> routines_valid(rs@),
        r matches Err(e) ==> !(e is Lex),
{
    let routines = match parse_routines(toks) {
        Ok(rs) => rs,
        Err(e) => {
            proof {
                lemma_routines_error_kind(toks@, 0);
            }
            return Err(e);
        },
    };
    let ghost m = routines_from(toks@, 0)->Ok_0;
    proof {
        assert(routines_valid(routines@) <==> routines_valid_model(toks@, m)) by {
            if routines_valid(routines@) {
                assert forall|k: int, callee: Seq<char>|
                    0 <= k < m.len() && #[trigger] calls(
                        toks@.subrange(m[k].1, m[k].2),
                        callee,
                    ) implies call_allowed(m[k].0, callee) by {
                    assert(routines@[k].body@ == toks@.subrange(m[k].1, m[k].2));
                    assert(calls(routines@[k].body@, callee));
                }
            }
            if routines_valid_model(toks@, m) {
                assert forall|r2: int, callee: Seq<char>|
                    0 <= r2 < routines@.len() && #[trigger] calls(
                        routines@[r2].body@,
                        callee,
                    ) implies !spec_is_reserved(callee) && spec_can_call_routines(
                    routines@[r2].name@,
                ) by {
                    assert(routines@[r2].body@ == toks@.subrange(m[r2].1, m[r2].2));
                    assert(calls(toks@.subrange(m[r2].1, m[r2].2), callee));
                }
            }
        }
    }
    match validate_routines(&routines) {
        Ok(()) => Ok(routines),
        Err(e) => Err(e),
    }
}

/// Reads a package script and checks its routines
pub fn validate_script(text: &str) -> (r: Result<Vec<Routine>, ScriptError>)
    requires
        text@.len() < usize::MAX,
    ensures
        lex_from(text@, 0) is Err <==> r matches Err(ScriptError::Lex(_)),
        lex_from(text@, 0) is Ok ==> exists|toks: Seq<(Token, TextPos)>|
            lexes_to(text@, toks, lex_from(text@, 0)->Ok_0) && script_outcome(toks, r),
        r matches Ok(rs) ==> routines_valid(rs@),
{
    let toks = match lex(text) {
        Ok(toks) => toks,
        Err(e) => {
            return Err(ScriptError::Lex(e));
        },
    };
    let r = validate_tokens(&toks);
    proof {
        assert(lexes_to(text@, toks@, lex_from(text@, 0)->Ok_0) && script_outcome(toks@, r));
    }
    r
}

/// Splitting tokens into routines never fails with a reading error
proof fn lemma_routines_error_kind(toks: Seq<(Token, TextPos)>, i: int)
    ensures
        routines_from(toks, i) matches Err(e) ==> !(e is Lex),
    decreases toks.len() - i,
{
    if 0 <= i < toks.len() && toks[i].0 is At && i + 2 < toks.len() && toks[i + 1].0 is Ident
        && toks[i + 2].0 is CurlyOpen {
        let e = closing_brace(toks, i + 3, 1);
        if !(e < i + 3 || e >= toks.len()) {
            lemma_routines_error_kind(toks, e + 1);
        }
    }
}

} // verus!
