//! Placeholder interpolation for `args`, `command` and `env` values.
//!
//! `{{name}}` is replaced by the value bound to `name`: first a `--var`
//! binding, then an answer to the step's prompt for `name`, else an error.
//! `{{{{` stands for a literal `{{` and `}}}}` for `}}`. Values holding a
//! newline are refused, and values for shell commands are shell-quoted unless
//! the step is `raw`.
//!
//! Prompting is interactive and happens outside this module: a resolution is
//! given the answers collected so far, in the order the prompts were asked,
//! and reports `NeedsPrompt` when it reaches a prompt it has no answer for.
//! The caller asks that prompt, appends the answer, and resolves again.
use vstd::prelude::*;
use vstd::string::*;
use crate::strmap::StrMap;
use crate::text::{views, copy_string, push_str, push_chars, chars_of, string_from_chars, trim_chars, trimmed, contains_chars, contains_seq};
use crate::strmap::assoc_lookup;

verus! {

// ---------------------------------------------------------------------------
// Tokens
// ---------------------------------------------------------------------------

/// A piece of a template: literal text, or the name inside `{{...}}`.
pub enum Token {
    Text(Seq<char>),
    Placeholder(Seq<char>),
}

/// `t[i..i+2]` is a closing `}}`.
pub open spec fn closes_at(t: Seq<char>, i: int) -> bool {
    0 <= i && i + 1 < t.len() && t[i] == '}' && t[i + 1] == '}'
}

/// The first index `k >= i` at which `t` has `}}`, or -1.
pub open spec fn first_close(t: Seq<char>, i: int) -> int
    decreases t.len() - i,
{
    if i < 0 || i + 1 >= t.len() {
        -1
    } else if closes_at(t, i) {
        i
    } else {
        first_close(t, i + 1)
    }
}

pub proof fn lemma_first_close(t: Seq<char>, i: int)
    requires
        0 <= i,
    ensures
        first_close(t, i) == -1 || (i <= first_close(t, i) && closes_at(t, first_close(t, i))
            && forall|j: int| i <= j < first_close(t, i) ==> !closes_at(t, j)),
        first_close(t, i) == -1 ==> forall|j: int| i <= j ==> !closes_at(t, j),
    decreases t.len() - i,
{
    if i + 1 < t.len() && !closes_at(t, i) {
        lemma_first_close(t, i + 1);
    }
}

/// The tokens of a template, read left to right.
pub open spec fn tokenize(t: Seq<char>) -> Seq<Token>
    decreases t.len(),
{
    if t.len() == 0 {
        seq![]
    } else if t[0] == '{' {
        if t.len() >= 2 && t[1] == '{' {
            if t.len() >= 3 && t[2] == '{' {
                if t.len() >= 4 && t[3] == '{' {
                    seq![Token::Text(seq!['{', '{'])] + tokenize(t.skip(4))
                } else {
                    seq![Token::Text(seq!['{', '{', '{'])] + tokenize(t.skip(3))
                }
            } else {
                let r = t.skip(2);
                let k = first_close(r, 0);
                if k < 0 {
                    seq![Token::Text(seq!['{', '{'] + r)]
                } else {
                    proof {
                        lemma_first_close(r, 0);
                    }
                    seq![Token::Placeholder(r.take(k))] + tokenize(r.skip(k + 2))
                }
            }
        } else {
            seq![Token::Text(seq!['{'])] + tokenize(t.skip(1))
        }
    } else if t[0] == '}' {
        if t.len() >= 2 && t[1] == '}' {
            if t.len() >= 3 && t[2] == '}' {
                if t.len() >= 4 && t[3] == '}' {
                    seq![Token::Text(seq!['}', '}'])] + tokenize(t.skip(4))
                } else {
                    seq![Token::Text(seq!['}', '}', '}'])] + tokenize(t.skip(3))
                }
            } else {
                seq![Token::Text(seq!['}', '}'])] + tokenize(t.skip(2))
            }
        } else {
            seq![Token::Text(seq!['}'])] + tokenize(t.skip(1))
        }
    } else {
        seq![Token::Text(seq![t[0]])] + tokenize(t.skip(1))
    }
}

/// A token as the tokenizer hands it out.
pub enum Piece {
    Text(Vec<char>),
    Placeholder(Vec<char>),
}

impl View for Piece {
    type V = Token;

    open spec fn view(&self) -> Token {
        match self {
            Piece::Text(v) => Token::Text(v@),
            Piece::Placeholder(v) => Token::Placeholder(v@),
        }
    }
}

pub open spec fn pieces_view(p: Seq<Piece>) -> Seq<Token> {
    p.map_values(|x: Piece| x@)
}

fn two(c: char) -> (v: Vec<char>)
    ensures
        v@ == seq![c, c],
{
    let mut v = Vec::new();
    v.push(c);
    v.push(c);
    v
}

fn three(c: char) -> (v: Vec<char>)
    ensures
        v@ == seq![c, c, c],
{
    let mut v = two(c);
    v.push(c);
    v
}

fn one(c: char) -> (v: Vec<char>)
    ensures
        v@ == seq![c],
{
    let mut v = Vec::new();
    v.push(c);
    v
}

/// First `}}` at or after `from`, or `None`.
fn find_close(t: &Vec<char>, from: usize) -> (r: Option<usize>)
    ensures
        match r {
            Some(k) => k as int == first_close(t@, from as int),
            None => first_close(t@, from as int) == -1,
        },
    decreases t@.len() - from,
{
    if from >= t.len() || t.len() - from < 2 {
        None
    } else if t[from] == '}' && t[from + 1] == '}' {
        Some(from)
    } else {
        find_close(t, from + 1)
    }
}

/// Copies `t[from..to]`.
fn slice_chars(t: &Vec<char>, from: usize, to: usize) -> (v: Vec<char>)
    requires
        from <= to <= t@.len(),
    ensures
        v@ == t@.subrange(from as int, to as int),
{
    let mut v = Vec::new();
    let mut i: usize = from;
    while i < to
        invariant
            from <= i <= to <= t@.len(),
            v@ == t@.subrange(from as int, i as int),
        decreases to - i,
    {
        v.push(t[i]);
        i = i + 1;
        assert(v@ =~= t@.subrange(from as int, i as int));
    }
    v
}

/// Splits a template into tokens.
pub fn tokenize_chars(t: &Vec<char>) -> (r: Vec<Piece>)
    ensures
        pieces_view(r@) == tokenize(t@),
{
    let mut out: Vec<Piece> = Vec::new();
    let mut i: usize = 0;
    let n: usize = t.len();
    assert(t@.skip(0) =~= t@);
    while i < n
        invariant
            n == t@.len(),
            i <= n,
            tokenize(t@) == pieces_view(out@) + tokenize(t@.skip(i as int)),
        decreases n - i,
    {
        let ghost rest = t@.skip(i as int);
        let ghost before = pieces_view(out@);
        let c: char = t[i];
        let step: usize;
        if c == '{' {
            if n - i >= 2 && t[i + 1] == '{' {
                if n - i >= 3 && t[i + 2] == '{' {
                    if n - i >= 4 && t[i + 3] == '{' {
                        out.push(Piece::Text(two('{')));
                        step = 4;
                    } else {
                        out.push(Piece::Text(three('{')));
                        step = 3;
                    }
                } else {
                    let ghost r = rest.skip(2);
                    let close = find_close(t, i + 2);
                    proof {
                        lemma_first_close_shift(t@, i as int + 2);
                        lemma_first_close(t@, i as int + 2);
                        assert(rest[0] == '{' && rest[1] == '{');
                        assert(!(rest.len() >= 3 && rest[2] == '{'));
                        assert(r =~= t@.skip(i + 2));
                    }
                    match close {
                        None => {
                            let mut lit = two('{');
                            let tail = slice_chars(t, i + 2, n);
                            let mut k: usize = 0;
                            while k < tail.len()
                                invariant
                                    k <= tail@.len(),
                                    lit@ == seq!['{', '{'] + tail@.subrange(0, k as int),
                                decreases tail@.len() - k,
                            {
                                lit.push(tail[k]);
                                k = k + 1;
                                assert(lit@ =~= seq!['{', '{'] + tail@.subrange(0, k as int));
                            }
                            assert(tail@.subrange(0, k as int) =~= r);
                            out.push(Piece::Text(lit));
                            proof {
                                assert(pieces_view(out@) =~= before.push(Token::Text(seq!['{', '{'] + r)));
                                assert(tokenize(rest) == seq![Token::Text(seq!['{', '{'] + r)]);
                                assert(t@.skip(n as int) =~= Seq::<char>::empty());
                                assert(tokenize(t@.skip(n as int)) == Seq::<Token>::empty());
                                assert(tokenize(t@) =~= pieces_view(out@) + tokenize(t@.skip(n as int)));
                            }
                            i = n;
                            continue;
                        },
                        Some(k) => {
                            let name = slice_chars(t, i + 2, k);
                            out.push(Piece::Placeholder(name));
                            proof {
                                assert(r.take(k - i - 2) =~= name@);
                                assert(r.skip(k - i - 2 + 2) =~= t@.skip(k + 2));
                            }
                            step = k + 2 - i;
                        },
                    }
                }
            } else {
                out.push(Piece::Text(one('{')));
                step = 1;
            }
        } else if c == '}' {
            if n - i >= 2 && t[i + 1] == '}' {
                if n - i >= 3 && t[i + 2] == '}' {
                    if n - i >= 4 && t[i + 3] == '}' {
                        out.push(Piece::Text(two('}')));
                        step = 4;
                    } else {
                        out.push(Piece::Text(three('}')));
                        step = 3;
                    }
                } else {
                    out.push(Piece::Text(two('}')));
                    step = 2;
                }
            } else {
                out.push(Piece::Text(one('}')));
                step = 1;
            }
        } else {
            out.push(Piece::Text(one(c)));
            step = 1;
        }
        proof {
            assert(rest.skip(step as int) =~= t@.skip(i + step));
            assert(pieces_view(out@) =~= before.push(pieces_view(out@).last()));
            assert(tokenize(rest) == seq![pieces_view(out@).last()] + tokenize(rest.skip(step as int)));
            assert(tokenize(t@) =~= pieces_view(out@) + tokenize(t@.skip(i + step)));
        }
        i = i + step;
    }
    proof {
        assert(t@.skip(n as int) =~= Seq::<char>::empty());
        assert(pieces_view(out@) =~= pieces_view(out@) + tokenize(t@.skip(n as int)));
    }
    out
}

/// `first_close` on a suffix is `first_close` on the whole, shifted.
proof fn lemma_first_close_shift(t: Seq<char>, i: int)
    requires
        0 <= i <= t.len(),
    ensures
        first_close(t.skip(i), 0) == (if first_close(t, i) == -1 { -1 } else { first_close(t, i) - i }),
{
    lemma_first_close_shift_from(t, i, i);
}

proof fn lemma_first_close_shift_from(t: Seq<char>, i: int, j: int)
    requires
        0 <= i <= j,
        i <= t.len(),
    ensures
        first_close(t.skip(i), j - i) == (if first_close(t, j) == -1 { -1 } else { first_close(t, j) - i }),
    decreases t.len() - j,
{
    let s = t.skip(i);
    if j + 1 < t.len() {
        assert(closes_at(s, j - i) == closes_at(t, j));
        if !closes_at(t, j) {
            lemma_first_close_shift_from(t, i, j + 1);
        }
    }
}

// ---------------------------------------------------------------------------
// Shell quoting
// ---------------------------------------------------------------------------

/// Characters that `shell_escape::unix::escape` leaves as they are.
pub open spec fn shell_safe_char(c: char) -> bool {
    ('a' <= c && c <= 'z') || ('A' <= c && c <= 'Z') || ('0' <= c && c <= '9') || c == '-'
        || c == '_' || c == '=' || c == '/' || c == ',' || c == '.' || c == '+'
}

/// The body of a single-quoted word: `'` and `!` leave the quotes as `'\'` + c + `'`.
pub open spec fn quote_body(s: Seq<char>) -> Seq<char>
    decreases s.len(),
{
    if s.len() == 0 {
        seq![]
    } else {
        (if s[0] == '\'' || s[0] == '!' {
            seq!['\'', '\\', s[0], '\'']
        } else {
            seq![s[0]]
        }) + quote_body(s.skip(1))
    }
}

/// What `shell_escape::unix::escape` makes of `s`: `s` itself when it is
/// nonempty and made of safe characters only, else `s` single-quoted.
pub open spec fn shell_quoted(s: Seq<char>) -> Seq<char> {
    if s.len() > 0 && (forall|i: int| 0 <= i < s.len() ==> shell_safe_char(#[trigger] s[i])) {
        s
    } else {
        seq!['\''] + quote_body(s) + seq!['\'']
    }
}

/// Calls `shell_escape::unix::escape`. Contract as its source reads: a
/// nonempty string of safe characters comes back unchanged; any other string
/// comes back inside single quotes, each `'` or `!` written as `'\` + char + `'`.
#[verifier::external_body]
fn shell_escape_unix(s: &str) -> (r: String)
    ensures
        r@ == shell_quoted(s@),
{
    shell_escape::unix::escape(std::borrow::Cow::Borrowed(s)).into_owned()
}

// ---------------------------------------------------------------------------
// Resolution
// ---------------------------------------------------------------------------

/// Why a resolution stopped, over views.
pub enum ResolveFailure {
    MissingValue { step: Seq<char>, placeholder: Seq<char>, interactive: bool },
    NewlineInValue { step: Seq<char>, placeholder: Seq<char> },
    NeedsPrompt { placeholder: Seq<char>, prompt: Seq<char> },
}

/// Why a resolution stopped.
#[derive(Debug)]
pub enum ResolveError {
    /// No `--var` binding and no usable prompt for the placeholder.
    /// `interactive` is set when the run is not in `--yes` mode.
    MissingValue { step: String, placeholder: String, interactive: bool },
    /// The value found for the placeholder holds `\n` or `\r`.
    NewlineInValue { step: String, placeholder: String },
    /// The placeholder is to be asked interactively with `prompt`, and no
    /// answer was supplied for it yet.
    NeedsPrompt { placeholder: String, prompt: String },
}

impl View for ResolveError {
    type V = ResolveFailure;

    open spec fn view(&self) -> ResolveFailure {
        match self {
            ResolveError::MissingValue { step, placeholder, interactive } => ResolveFailure::MissingValue {
                step: step@,
                placeholder: placeholder@,
                interactive: *interactive,
            },
            ResolveError::NewlineInValue { step, placeholder } => ResolveFailure::NewlineInValue {
                step: step@,
                placeholder: placeholder@,
            },
            ResolveError::NeedsPrompt { placeholder, prompt } => ResolveFailure::NeedsPrompt {
                placeholder: placeholder@,
                prompt: prompt@,
            },
        }
    }
}

/// The message the runner prints for a failure.
pub open spec fn failure_message(f: ResolveFailure) -> Seq<char> {
    match f {
        ResolveFailure::MissingValue { step, placeholder, interactive } => "error: step '"@ + step
            + "' requires value for placeholder '{{"@ + placeholder + "}}'; pass --var "@
            + placeholder + (if interactive {
            "=<value> or add a prompts entry"@
        } else {
            "=<value>"@
        }),
        ResolveFailure::NewlineInValue { step, placeholder } => "error: value for placeholder '{{"@
            + placeholder + "}}' in step '"@ + step
            + "' contains a newline, which is not allowed"@,
        ResolveFailure::NeedsPrompt { placeholder, prompt } => "placeholder '{{"@ + placeholder
            + "}}' awaits an answer to: "@ + prompt,
    }
}

impl ResolveError {
    /// The message of this error.
    pub fn message(&self) -> (m: String)
        ensures
            m@ == failure_message(self@),
    {
        match self {
            ResolveError::MissingValue { step, placeholder, interactive } => {
                let mut m = String::from_str("error: step '");
                m.append(step.as_str());
                m.append("' requires value for placeholder '{{");
                m.append(placeholder.as_str());
                m.append("}}'; pass --var ");
                m.append(placeholder.as_str());
                if *interactive {
                    m.append("=<value> or add a prompts entry");
                } else {
                    m.append("=<value>");
                }
                m
            },
            ResolveError::NewlineInValue { step, placeholder } => {
                let mut m = String::from_str("error: value for placeholder '{{");
                m.append(placeholder.as_str());
                m.append("}}' in step '");
                m.append(step.as_str());
                m.append("' contains a newline, which is not allowed");
                m
            },
            ResolveError::NeedsPrompt { placeholder, prompt } => {
                let mut m = String::from_str("placeholder '{{");
                m.append(placeholder.as_str());
                m.append("}}' awaits an answer to: ");
                m.append(prompt.as_str());
                m
            },
        }
    }
}

/// The value bound to `k` in a string table, by view.
pub open spec fn bound(m: StrMap<String>, k: Seq<char>) -> Option<Seq<char>> {
    match m.spec_get(k) {
        Some(v) => Some(v@),
        None => None,
    }
}

/// The value of placeholder `name`, and the number of answers used so far:
/// a `--var` binding first; then, for a placeholder with a prompt, the next
/// answer (an error in `--yes` mode); else a missing-value error.
pub open spec fn placeholder_value(
    step: Seq<char>,
    name: Seq<char>,
    vars: StrMap<String>,
    prompts: StrMap<String>,
    yes_mode: bool,
    answers: Seq<Seq<char>>,
    cursor: int,
) -> Result<(Seq<char>, int), ResolveFailure> {
    match bound(vars, name) {
        Some(v) => Ok((v, cursor)),
        None => match bound(prompts, name) {
            Some(text) => if yes_mode {
                Err(ResolveFailure::MissingValue { step, placeholder: name, interactive: false })
            } else if 0 <= cursor < answers.len() {
                Ok((answers[cursor], cursor + 1))
            } else {
                Err(ResolveFailure::NeedsPrompt { placeholder: name, prompt: text })
            },
            None => Err(
                ResolveFailure::MissingValue { step, placeholder: name, interactive: !yes_mode },
            ),
        },
    }
}

/// `v` holds a line break.
pub open spec fn has_line_break(v: Seq<char>) -> bool {
    exists|i: int| 0 <= i < v.len() && (v[i] == '\n' || v[i] == '\r')
}

/// A value as it is spliced in.
pub open spec fn spliced(v: Seq<char>, escape: bool) -> Seq<char> {
    if escape {
        shell_quoted(v)
    } else {
        v
    }
}

/// Prepends `o` to a successful result.
pub open spec fn prepend(o: Seq<char>, r: Result<(Seq<char>, int), ResolveFailure>) -> Result<
    (Seq<char>, int),
    ResolveFailure,
> {
    match r {
        Ok((x, c)) => Ok((o + x, c)),
        Err(e) => Err(e),
    }
}

/// Resolution of a token sequence, left to right, starting at answer `cursor`.
pub open spec fn resolve_tokens(
    toks: Seq<Token>,
    step: Seq<char>,
    vars: StrMap<String>,
    prompts: StrMap<String>,
    yes_mode: bool,
    escape: bool,
    answers: Seq<Seq<char>>,
    cursor: int,
) -> Result<(Seq<char>, int), ResolveFailure>
    decreases toks.len(),
{
    if toks.len() == 0 {
        Ok((seq![], cursor))
    } else {
        match toks[0] {
            Token::Text(s) => prepend(
                s,
                resolve_tokens(toks.skip(1), step, vars, prompts, yes_mode, escape, answers, cursor),
            ),
            Token::Placeholder(name) => match placeholder_value(
                step,
                name,
                vars,
                prompts,
                yes_mode,
                answers,
                cursor,
            ) {
                Err(e) => Err(e),
                Ok((v, c)) => if has_line_break(v) {
                    Err(ResolveFailure::NewlineInValue { step, placeholder: name })
                } else {
                    prepend(
                        spliced(v, escape),
                        resolve_tokens(toks.skip(1), step, vars, prompts, yes_mode, escape, answers, c),
                    )
                },
            },
        }
    }
}

/// Resolution of a template string.
pub open spec fn resolve_template(
    t: Seq<char>,
    step: Seq<char>,
    vars: StrMap<String>,
    prompts: StrMap<String>,
    yes_mode: bool,
    escape: bool,
    answers: Seq<Seq<char>>,
    cursor: int,
) -> Result<(Seq<char>, int), ResolveFailure> {
    resolve_tokens(tokenize(t), step, vars, prompts, yes_mode, escape, answers, cursor)
}

/// The resolved text of a template, answers counted from the first.
pub open spec fn resolved(
    t: Seq<char>,
    step: Seq<char>,
    vars: StrMap<String>,
    prompts: StrMap<String>,
    yes_mode: bool,
    escape: bool,
    answers: Seq<Seq<char>>,
) -> Result<Seq<char>, ResolveFailure> {
    match resolve_template(t, step, vars, prompts, yes_mode, escape, answers, 0) {
        Ok((o, _)) => Ok(o),
        Err(e) => Err(e),
    }
}

fn has_line_break_exec(v: &str) -> (r: bool)
    ensures
        r == has_line_break(v@),
{
    let c = chars_of(v);
    let mut i: usize = 0;
    while i < c.len()
        invariant
            c@ == v@,
            i <= c@.len(),
            forall|j: int| 0 <= j < i ==> !(c@[j] == '\n' || c@[j] == '\r'),
        decreases c@.len() - i,
    {
        if c[i] == '\n' || c[i] == '\r' {
            return true;
        }
        i = i + 1;
    }
    false
}


/// Looks up the value of one placeholder.
fn lookup_placeholder(
    step_name: &str,
    name: &str,
    vars: &StrMap<String>,
    prompts: &StrMap<String>,
    yes_mode: bool,
    answers: &Vec<String>,
    cursor: usize,
) -> (r: Result<(String, usize), ResolveError>)
    ensures
        match r {
            Ok((v, c)) => placeholder_value(step_name@, name@, *vars, *prompts, yes_mode, views(answers@), cursor as int) == Ok::<(Seq<char>, int), ResolveFailure>((v@, c as int)),
            Err(e) => placeholder_value(step_name@, name@, *vars, *prompts, yes_mode, views(answers@), cursor as int) == Err::<(Seq<char>, int), ResolveFailure>(e@),
        },
{
    match vars.get(name) {
        Some(v) => Ok((copy_string(v), cursor)),
        None => match prompts.get(name) {
            Some(text) => {
                if yes_mode {
                    Err(ResolveError::MissingValue {
                        step: step_name.to_owned(),
                        placeholder: name.to_owned(),
                        interactive: false,
                    })
                } else if cursor < answers.len() {
                    Ok((copy_string(&answers[cursor]), cursor + 1))
                } else {
                    Err(ResolveError::NeedsPrompt {
                        placeholder: name.to_owned(),
                        prompt: copy_string(text),
                    })
                }
            },
            None => Err(ResolveError::MissingValue {
                step: step_name.to_owned(),
                placeholder: name.to_owned(),
                interactive: !yes_mode,
            }),
        },
    }
}



/// Resolves a token sequence from answer `cursor` on.
fn resolve_pieces(
    pieces: &Vec<Piece>,
    step_name: &str,
    vars: &StrMap<String>,
    prompts: &StrMap<String>,
    yes_mode: bool,
    escape: bool,
    answers: &Vec<String>,
    cursor: usize,
) -> (r: Result<(Vec<char>, usize), ResolveError>)
    requires
        cursor <= answers@.len(),
    ensures
        match r {
            Ok((o, c)) => c <= answers@.len() && resolve_tokens(pieces_view(pieces@), step_name@, *vars, *prompts, yes_mode, escape, views(answers@), cursor as int) == Ok::<(Seq<char>, int), ResolveFailure>((o@, c as int)),
            Err(e) => resolve_tokens(pieces_view(pieces@), step_name@, *vars, *prompts, yes_mode, escape, views(answers@), cursor as int) == Err::<(Seq<char>, int), ResolveFailure>(e@),
        },
{
    let ghost toks = pieces_view(pieces@);
    let ghost ans = views(answers@);
    let mut out: Vec<char> = Vec::new();
    let mut cur = cursor;
    let mut i: usize = 0;
    assert(toks.skip(0) =~= toks);
    while i < pieces.len()
        invariant
            toks == pieces_view(pieces@),
            ans == views(answers@),
            i <= pieces@.len(),
            cur <= answers@.len(),
            resolve_tokens(toks, step_name@, *vars, *prompts, yes_mode, escape, ans, cursor as int)
                == prepend(out@, resolve_tokens(toks.skip(i as int), step_name@, *vars, *prompts, yes_mode, escape, ans, cur as int)),
        decreases pieces@.len() - i,
    {
        let ghost rest = toks.skip(i as int);
        assert(rest[0] == pieces@[i as int]@);
        assert(rest.skip(1) =~= toks.skip(i + 1));
        match &pieces[i] {
            Piece::Text(s) => {
                let ghost before = out@;
                push_chars(&mut out, s);
                proof {
                    let later = resolve_tokens(toks.skip(i + 1), step_name@, *vars, *prompts, yes_mode, escape, ans, cur as int);
                    match later {
                        Ok((x, c)) => { assert(before + (s@ + x) =~= out@ + x); },
                        Err(e) => {},
                    }
                }
            },
            Piece::Placeholder(name_chars) => {
                let name = string_from_chars(name_chars);
                let found = lookup_placeholder(step_name, name.as_str(), vars, prompts, yes_mode, answers, cur);
                match found {
                    Err(e) => {
                        return Err(e);
                    },
                    Ok((v, c)) => {
                        if has_line_break_exec(v.as_str()) {
                            return Err(ResolveError::NewlineInValue {
                                step: step_name.to_owned(),
                                placeholder: name,
                            });
                        }
                        let ghost before = out@;
                        if escape {
                            let q = shell_escape_unix(v.as_str());
                            push_str(&mut out, q.as_str());
                        } else {
                            push_str(&mut out, v.as_str());
                        }
                        proof {
                            let later = resolve_tokens(toks.skip(i + 1), step_name@, *vars, *prompts, yes_mode, escape, ans, c as int);
                            match later {
                                Ok((x, cc)) => { assert(before + (spliced(v@, escape) + x) =~= out@ + x); },
                                Err(e) => {},
                            }
                        }
                        cur = c;
                    },
                }
            },
        }
        i = i + 1;
    }
    proof {
        assert(toks.skip(pieces@.len() as int) =~= Seq::<Token>::empty());
        assert(out@ + Seq::<char>::empty() =~= out@);
    }
    Ok((out, cur))
}

/// Resolves `template` from answer `cursor` on; on success also returns the
/// number of answers used up to the end.
pub fn resolve_from(
    template: &str,
    step_name: &str,
    vars: &StrMap<String>,
    prompts: &StrMap<String>,
    yes_mode: bool,
    shell_escape_values: bool,
    answers: &Vec<String>,
    cursor: usize,
) -> (r: Result<(String, usize), ResolveError>)
    requires
        cursor <= answers@.len(),
    ensures
        match r {
            Ok((o, c)) => c <= answers@.len() && resolve_template(template@, step_name@, *vars, *prompts, yes_mode, shell_escape_values, views(answers@), cursor as int) == Ok::<(Seq<char>, int), ResolveFailure>((o@, c as int)),
            Err(e) => resolve_template(template@, step_name@, *vars, *prompts, yes_mode, shell_escape_values, views(answers@), cursor as int) == Err::<(Seq<char>, int), ResolveFailure>(e@),
        },
{
    let t = chars_of(template);
    let pieces = tokenize_chars(&t);
    match resolve_pieces(&pieces, step_name, vars, prompts, yes_mode, shell_escape_values, answers, cursor) {
        Ok((o, c)) => Ok((string_from_chars(&o), c)),
        Err(e) => Err(e),
    }
}

/// Resolves every `{{placeholder}}` in `template`. `answers` are the answers to
/// the prompts asked so far, in order; a placeholder that needs one more
/// answer makes the result `NeedsPrompt`.
pub fn resolve_placeholders(
    template: &str,
    step_name: &str,
    vars: &StrMap<String>,
    prompts: &StrMap<String>,
    yes_mode: bool,
    shell_escape_values: bool,
    answers: &Vec<String>,
) -> (r: Result<String, ResolveError>)
    ensures
        match r {
            Ok(o) => resolved(template@, step_name@, *vars, *prompts, yes_mode, shell_escape_values, views(answers@)) == Ok::<Seq<char>, ResolveFailure>(o@),
            Err(e) => resolved(template@, step_name@, *vars, *prompts, yes_mode, shell_escape_values, views(answers@)) == Err::<Seq<char>, ResolveFailure>(e@),
        },
{
    match resolve_from(template, step_name, vars, prompts, yes_mode, shell_escape_values, answers, 0) {
        Ok((o, c)) => Ok(o),
        Err(e) => Err(e),
    }
}

// ---------------------------------------------------------------------------
// Laws of resolution
// ---------------------------------------------------------------------------

/// The outcome asks for one more prompt answer.
pub open spec fn awaits_answer<T>(r: Result<T, ResolveFailure>) -> bool {
    match r {
        Err(ResolveFailure::NeedsPrompt { .. }) => true,
        _ => false,
    }
}

/// `b` starts with `a`.
pub open spec fn extends(a: Seq<Seq<char>>, b: Seq<Seq<char>>) -> bool {
    a.len() <= b.len() && forall|i: int| 0 <= i < a.len() ==> #[trigger] b[i] == a[i]
}

proof fn lemma_tokens_yes_mode(
    toks: Seq<Token>,
    step: Seq<char>,
    vars: StrMap<String>,
    prompts: StrMap<String>,
    escape: bool,
    answers: Seq<Seq<char>>,
    cursor: int,
)
    ensures
        !awaits_answer(resolve_tokens(toks, step, vars, prompts, true, escape, answers, cursor)),
    decreases toks.len(),
{
    if toks.len() > 0 {
        match toks[0] {
            Token::Text(s) => {
                lemma_tokens_yes_mode(toks.skip(1), step, vars, prompts, escape, answers, cursor);
            },
            Token::Placeholder(name) => {
                match placeholder_value(step, name, vars, prompts, true, answers, cursor) {
                    Err(e) => {},
                    Ok((v, c)) => {
                        lemma_tokens_yes_mode(toks.skip(1), step, vars, prompts, escape, answers, c);
                    },
                }
            },
        }
    }
}

/// In `--yes` mode nothing is ever asked: resolution succeeds or fails
/// outright.
pub proof fn law_yes_mode_never_prompts(
    t: Seq<char>,
    step: Seq<char>,
    vars: StrMap<String>,
    prompts: StrMap<String>,
    escape: bool,
    answers: Seq<Seq<char>>,
    cursor: int,
)
    ensures
        !awaits_answer(resolve_template(t, step, vars, prompts, true, escape, answers, cursor)),
{
    lemma_tokens_yes_mode(tokenize(t), step, vars, prompts, escape, answers, cursor);
}

proof fn lemma_tokens_more_answers(
    toks: Seq<Token>,
    step: Seq<char>,
    vars: StrMap<String>,
    prompts: StrMap<String>,
    yes_mode: bool,
    escape: bool,
    a: Seq<Seq<char>>,
    b: Seq<Seq<char>>,
    cursor: int,
)
    requires
        extends(a, b),
        !awaits_answer(resolve_tokens(toks, step, vars, prompts, yes_mode, escape, a, cursor)),
    ensures
        resolve_tokens(toks, step, vars, prompts, yes_mode, escape, b, cursor)
            == resolve_tokens(toks, step, vars, prompts, yes_mode, escape, a, cursor),
    decreases toks.len(),
{
    if toks.len() > 0 {
        match toks[0] {
            Token::Text(s) => {
                lemma_tokens_more_answers(toks.skip(1), step, vars, prompts, yes_mode, escape, a, b, cursor);
            },
            Token::Placeholder(name) => {
                if 0 <= cursor < a.len() {
                    assert(b[cursor] == a[cursor]);
                }
                assert(placeholder_value(step, name, vars, prompts, yes_mode, b, cursor)
                    == placeholder_value(step, name, vars, prompts, yes_mode, a, cursor));
                match placeholder_value(step, name, vars, prompts, yes_mode, a, cursor) {
                    Err(e) => {},
                    Ok((v, c)) => {
                        if !has_line_break(v) {
                            lemma_tokens_more_answers(toks.skip(1), step, vars, prompts, yes_mode, escape, a, b, c);
                        }
                    },
                }
            },
        }
    }
}

/// Answers given so far fix the outcome: once resolution with `a` succeeds
/// or fails for a reason other than a missing answer, resolving again with
/// any list of answers that starts with `a` gives the same outcome. So the
/// runner may ask the prompts one by one and resolve again after each.
pub proof fn law_more_answers_same_outcome(
    t: Seq<char>,
    step: Seq<char>,
    vars: StrMap<String>,
    prompts: StrMap<String>,
    yes_mode: bool,
    escape: bool,
    a: Seq<Seq<char>>,
    b: Seq<Seq<char>>,
    cursor: int,
)
    requires
        extends(a, b),
        !awaits_answer(resolve_template(t, step, vars, prompts, yes_mode, escape, a, cursor)),
    ensures
        resolve_template(t, step, vars, prompts, yes_mode, escape, b, cursor)
            == resolve_template(t, step, vars, prompts, yes_mode, escape, a, cursor),
{
    lemma_tokens_more_answers(tokenize(t), step, vars, prompts, yes_mode, escape, a, b, cursor);
}

proof fn lemma_list_more_answers(
    ts: Seq<Seq<char>>,
    step: Seq<char>,
    vars: StrMap<String>,
    prompts: StrMap<String>,
    yes_mode: bool,
    escape: bool,
    a: Seq<Seq<char>>,
    b: Seq<Seq<char>>,
    cursor: int,
)
    requires
        extends(a, b),
        !awaits_answer(resolve_list(ts, step, vars, prompts, yes_mode, escape, a, cursor)),
    ensures
        resolve_list(ts, step, vars, prompts, yes_mode, escape, b, cursor)
            == resolve_list(ts, step, vars, prompts, yes_mode, escape, a, cursor),
    decreases ts.len(),
{
    if ts.len() > 0 {
        let first = resolve_template(ts[0], step, vars, prompts, yes_mode, escape, a, cursor);
        if !awaits_answer(first) {
            law_more_answers_same_outcome(ts[0], step, vars, prompts, yes_mode, escape, a, b, cursor);
            match first {
                Err(e) => {},
                Ok((x, c)) => {
                    lemma_list_more_answers(ts.skip(1), step, vars, prompts, yes_mode, escape, a, b, c);
                },
            }
        }
    }
}

/// The same holds of a list of templates resolved in turn.
pub proof fn law_list_more_answers_same_outcome(
    ts: Seq<Seq<char>>,
    step: Seq<char>,
    vars: StrMap<String>,
    prompts: StrMap<String>,
    yes_mode: bool,
    escape: bool,
    a: Seq<Seq<char>>,
    b: Seq<Seq<char>>,
    cursor: int,
)
    requires
        extends(a, b),
        !awaits_answer(resolve_list(ts, step, vars, prompts, yes_mode, escape, a, cursor)),
    ensures
        resolve_list(ts, step, vars, prompts, yes_mode, escape, b, cursor)
            == resolve_list(ts, step, vars, prompts, yes_mode, escape, a, cursor),
{
    lemma_list_more_answers(ts, step, vars, prompts, yes_mode, escape, a, b, cursor);
}

proof fn lemma_list_yes_mode(
    ts: Seq<Seq<char>>,
    step: Seq<char>,
    vars: StrMap<String>,
    prompts: StrMap<String>,
    escape: bool,
    answers: Seq<Seq<char>>,
    cursor: int,
)
    ensures
        !awaits_answer(resolve_list(ts, step, vars, prompts, true, escape, answers, cursor)),
    decreases ts.len(),
{
    if ts.len() > 0 {
        law_yes_mode_never_prompts(ts[0], step, vars, prompts, escape, answers, cursor);
        match resolve_template(ts[0], step, vars, prompts, true, escape, answers, cursor) {
            Err(e) => {},
            Ok((x, c)) => {
                lemma_list_yes_mode(ts.skip(1), step, vars, prompts, escape, answers, c);
            },
        }
    }
}

/// Nor for a list of templates.
pub proof fn law_list_yes_mode_never_prompts(
    ts: Seq<Seq<char>>,
    step: Seq<char>,
    vars: StrMap<String>,
    prompts: StrMap<String>,
    escape: bool,
    answers: Seq<Seq<char>>,
    cursor: int,
)
    ensures
        !awaits_answer(resolve_list(ts, step, vars, prompts, true, escape, answers, cursor)),
{
    lemma_list_yes_mode(ts, step, vars, prompts, escape, answers, cursor);
}

/// The number of placeholders among `toks`.
pub open spec fn placeholder_count(toks: Seq<Token>) -> nat
    decreases toks.len(),
{
    if toks.len() == 0 {
        0
    } else {
        (if toks[0] is Placeholder { 1nat } else { 0nat }) + placeholder_count(toks.skip(1))
    }
}

/// The number of placeholders in the templates `ts`.
pub open spec fn list_placeholders(ts: Seq<Seq<char>>) -> nat
    decreases ts.len(),
{
    if ts.len() == 0 {
        0
    } else {
        placeholder_count(tokenize(ts[0])) + list_placeholders(ts.skip(1))
    }
}

proof fn lemma_tokens_cursor(
    toks: Seq<Token>,
    step: Seq<char>,
    vars: StrMap<String>,
    prompts: StrMap<String>,
    yes_mode: bool,
    escape: bool,
    a: Seq<Seq<char>>,
    c: int,
)
    requires
        c >= 0,
    ensures
        match resolve_tokens(toks, step, vars, prompts, yes_mode, escape, a, c) {
            Ok((o, c2)) => c <= c2 <= c + placeholder_count(toks),
            Err(e) => awaits_answer(resolve_tokens(toks, step, vars, prompts, yes_mode, escape, a, c))
                ==> a.len() < c + placeholder_count(toks),
        },
    decreases toks.len(),
{
    if toks.len() > 0 {
        match toks[0] {
            Token::Text(x) => {
                lemma_tokens_cursor(toks.skip(1), step, vars, prompts, yes_mode, escape, a, c);
            },
            Token::Placeholder(name) => {
                match placeholder_value(step, name, vars, prompts, yes_mode, a, c) {
                    Err(e) => {},
                    Ok((v, c1)) => {
                        lemma_tokens_cursor(toks.skip(1), step, vars, prompts, yes_mode, escape, a, c1);
                    },
                }
            },
        }
    }
}

proof fn lemma_list_cursor(
    ts: Seq<Seq<char>>,
    step: Seq<char>,
    vars: StrMap<String>,
    prompts: StrMap<String>,
    yes_mode: bool,
    escape: bool,
    a: Seq<Seq<char>>,
    c: int,
)
    requires
        c >= 0,
    ensures
        match resolve_list(ts, step, vars, prompts, yes_mode, escape, a, c) {
            Ok((xs, c2)) => c <= c2 <= c + list_placeholders(ts),
            Err(e) => awaits_answer(resolve_list(ts, step, vars, prompts, yes_mode, escape, a, c))
                ==> a.len() < c + list_placeholders(ts),
        },
    decreases ts.len(),
{
    if ts.len() > 0 {
        lemma_tokens_cursor(tokenize(ts[0]), step, vars, prompts, yes_mode, escape, a, c);
        match resolve_template(ts[0], step, vars, prompts, yes_mode, escape, a, c) {
            Err(e) => {},
            Ok((x, c1)) => {
                lemma_list_cursor(ts.skip(1), step, vars, prompts, yes_mode, escape, a, c1);
            },
        }
    }
}

/// Resolution uses at most one answer per placeholder, and waits for an
/// answer only while there are fewer answers than placeholders: a runner that
/// adds one answer per prompt is done after at most that many prompts.
pub proof fn law_answers_per_placeholder(
    t: Seq<char>,
    step: Seq<char>,
    vars: StrMap<String>,
    prompts: StrMap<String>,
    yes_mode: bool,
    escape: bool,
    a: Seq<Seq<char>>,
    c: int,
)
    requires
        c >= 0,
    ensures
        match resolve_template(t, step, vars, prompts, yes_mode, escape, a, c) {
            Ok((o, c2)) => c <= c2 <= c + placeholder_count(tokenize(t)),
            Err(e) => awaits_answer(resolve_template(t, step, vars, prompts, yes_mode, escape, a, c))
                ==> a.len() < c + placeholder_count(tokenize(t)),
        },
{
    lemma_tokens_cursor(tokenize(t), step, vars, prompts, yes_mode, escape, a, c);
}

/// The same holds of a list of templates resolved in turn.
pub proof fn law_list_answers_per_placeholder(
    ts: Seq<Seq<char>>,
    step: Seq<char>,
    vars: StrMap<String>,
    prompts: StrMap<String>,
    yes_mode: bool,
    escape: bool,
    a: Seq<Seq<char>>,
    c: int,
)
    requires
        c >= 0,
    ensures
        match resolve_list(ts, step, vars, prompts, yes_mode, escape, a, c) {
            Ok((xs, c2)) => c <= c2 <= c + list_placeholders(ts),
            Err(e) => awaits_answer(resolve_list(ts, step, vars, prompts, yes_mode, escape, a, c))
                ==> a.len() < c + list_placeholders(ts),
        },
{
    lemma_list_cursor(ts, step, vars, prompts, yes_mode, escape, a, c);
}

proof fn lemma_tokens_yes_cursor(
    toks: Seq<Token>,
    step: Seq<char>,
    vars: StrMap<String>,
    prompts: StrMap<String>,
    escape: bool,
    answers: Seq<Seq<char>>,
    c: int,
)
    ensures
        match resolve_tokens(toks, step, vars, prompts, true, escape, answers, c) {
            Ok((o, c2)) => c2 == c && resolve_tokens(toks, step, vars, prompts, true, escape, answers, 0)
                == Ok::<(Seq<char>, int), ResolveFailure>((o, 0)),
            Err(e) => resolve_tokens(toks, step, vars, prompts, true, escape, answers, 0)
                == Err::<(Seq<char>, int), ResolveFailure>(e),
        },
    decreases toks.len(),
{
    if toks.len() > 0 {
        lemma_tokens_yes_cursor(toks.skip(1), step, vars, prompts, escape, answers, c);
        lemma_tokens_yes_cursor(toks.skip(1), step, vars, prompts, escape, answers, 0);
    }
}

proof fn lemma_list_yes_elementwise(
    ts: Seq<Seq<char>>,
    step: Seq<char>,
    vars: StrMap<String>,
    prompts: StrMap<String>,
    escape: bool,
    answers: Seq<Seq<char>>,
    c: int,
)
    ensures
        resolve_list(ts, step, vars, prompts, true, escape, answers, c) is Ok
            <==> forall|i: int| 0 <= i < ts.len() ==> #[trigger] resolved(ts[i], step, vars, prompts, true, escape, answers) is Ok,
        match resolve_list(ts, step, vars, prompts, true, escape, answers, c) {
            Ok((xs, c2)) => c2 == c && xs.len() == ts.len() && forall|i: int| 0 <= i < ts.len()
                ==> #[trigger] resolved(ts[i], step, vars, prompts, true, escape, answers) == Ok::<Seq<char>, ResolveFailure>(xs[i]),
            Err(e) => true,
        },
    decreases ts.len(),
{
    if ts.len() > 0 {
        let rest = ts.skip(1);
        lemma_tokens_yes_cursor(tokenize(ts[0]), step, vars, prompts, escape, answers, c);
        match resolve_template(ts[0], step, vars, prompts, true, escape, answers, c) {
            Err(e) => {
                assert(!(resolved(ts[0], step, vars, prompts, true, escape, answers) is Ok));
            },
            Ok((x, c1)) => {
                lemma_list_yes_elementwise(rest, step, vars, prompts, escape, answers, c1);
                assert(resolved(ts[0], step, vars, prompts, true, escape, answers) == Ok::<Seq<char>, ResolveFailure>(x));
                assert forall|i: int| 0 < i < ts.len() implies #[trigger] resolved(ts[i], step, vars, prompts, true, escape, answers)
                    == resolved(rest[i - 1], step, vars, prompts, true, escape, answers) by {
                    assert(rest[i - 1] == ts[i]);
                }
                if (forall|i: int| 0 <= i < ts.len() ==> #[trigger] resolved(ts[i], step, vars, prompts, true, escape, answers) is Ok) {
                    assert forall|i: int| 0 <= i < rest.len() implies #[trigger] resolved(rest[i], step, vars, prompts, true, escape, answers) is Ok by {
                        assert(rest[i] == ts[i + 1]);
                        assert(resolved(ts[i + 1], step, vars, prompts, true, escape, answers) is Ok);
                    }
                }
                match resolve_list(rest, step, vars, prompts, true, escape, answers, c1) {
                    Ok((ys, c2)) => {
                        let xs = seq![x] + ys;
                        assert forall|i: int| 0 <= i < ts.len() implies #[trigger] resolved(ts[i], step, vars, prompts, true, escape, answers)
                            == Ok::<Seq<char>, ResolveFailure>(xs[i]) by {
                            if i > 0 {
                                assert(xs[i] == ys[i - 1]);
                                assert(resolved(rest[i - 1], step, vars, prompts, true, escape, answers) == Ok::<Seq<char>, ResolveFailure>(ys[i - 1]));
                            }
                        }
                    },
                    Err(e) => {
                        let w = choose|w: int| 0 <= w < rest.len() && !(#[trigger] resolved(rest[w], step, vars, prompts, true, escape, answers) is Ok);
                        assert(resolved(ts[w + 1], step, vars, prompts, true, escape, answers) == resolved(rest[w], step, vars, prompts, true, escape, answers));
                    },
                }
            },
        }
    }
}

/// In `--yes` mode a list resolves element by element: it succeeds exactly
/// when every element does, and then each element is its own resolution,
/// in order.
pub proof fn law_yes_mode_list_is_elementwise(
    ts: Seq<Seq<char>>,
    step: Seq<char>,
    vars: StrMap<String>,
    prompts: StrMap<String>,
    escape: bool,
    answers: Seq<Seq<char>>,
)
    ensures
        resolved_list(ts, step, vars, prompts, true, escape, answers) is Ok
            <==> forall|i: int| 0 <= i < ts.len() ==> #[trigger] resolved(ts[i], step, vars, prompts, true, escape, answers) is Ok,
        match resolved_list(ts, step, vars, prompts, true, escape, answers) {
            Ok(xs) => xs.len() == ts.len() && forall|i: int| 0 <= i < ts.len()
                ==> #[trigger] resolved(ts[i], step, vars, prompts, true, escape, answers) == Ok::<Seq<char>, ResolveFailure>(xs[i]),
            Err(e) => true,
        },
{
    lemma_list_yes_elementwise(ts, step, vars, prompts, escape, answers, 0);
}

/// No `{` or `}` in the text.
pub open spec fn brace_free(t: Seq<char>) -> bool {
    forall|i: int| 0 <= i < t.len() ==> #[trigger] t[i] != '{' && t[i] != '}'
}

/// A template without braces is static: it resolves to itself, whatever the
/// bindings, prompts and mode, and uses no answer.
pub proof fn law_static_template(
    t: Seq<char>,
    step: Seq<char>,
    vars: StrMap<String>,
    prompts: StrMap<String>,
    yes_mode: bool,
    escape: bool,
    answers: Seq<Seq<char>>,
    cursor: int,
)
    requires
        brace_free(t),
    ensures
        resolve_template(t, step, vars, prompts, yes_mode, escape, answers, cursor) == Ok::<(Seq<char>, int), ResolveFailure>((t, cursor)),
    decreases t.len(),
{
    if t.len() > 0 {
        let r = t.skip(1);
        assert(brace_free(r)) by {
            assert forall|i: int| 0 <= i < r.len() implies #[trigger] r[i] != '{' && r[i] != '}' by {
                assert(r[i] == t[i + 1]);
            }
        }
        law_static_template(r, step, vars, prompts, yes_mode, escape, answers, cursor);
        assert(t[0] != '{' && t[0] != '}');
        let toks = tokenize(t);
        assert(toks == seq![Token::Text(seq![t[0]])] + tokenize(r));
        assert(toks.skip(1) =~= tokenize(r));
        assert(toks[0] == Token::Text(seq![t[0]]));
        assert(resolve_tokens(toks.skip(1), step, vars, prompts, yes_mode, escape, answers, cursor)
            == resolve_template(r, step, vars, prompts, yes_mode, escape, answers, cursor));
        assert(seq![t[0]] + r =~= t);
    } else {
        assert(t =~= Seq::<char>::empty());
        assert(tokenize(t) =~= Seq::<Token>::empty());
    }
}

proof fn lemma_close_after_name(k: Seq<char>, i: int)
    requires
        0 <= i <= k.len(),
        forall|j: int| 0 <= j < k.len() ==> #[trigger] k[j] != '}',
    ensures
        first_close(k + seq!['}', '}'], i) == k.len(),
    decreases k.len() - i,
{
    let r = k + seq!['}', '}'];
    if i < k.len() {
        assert(r[i] == k[i]);
        lemma_close_after_name(k, i + 1);
    } else {
        assert(r[i] == '}' && r[i + 1] == '}');
    }
}

/// A placeholder bound by `--var` takes the bound value, whatever the
/// prompts and the mode: spliced in (shell-quoted when asked), or refused
/// when it holds a line break.
pub proof fn law_var_binding_wins(
    k: Seq<char>,
    v: Seq<char>,
    step: Seq<char>,
    vars: StrMap<String>,
    prompts: StrMap<String>,
    yes_mode: bool,
    escape: bool,
    answers: Seq<Seq<char>>,
    cursor: int,
)
    requires
        bound(vars, k) == Some(v),
        forall|j: int| 0 <= j < k.len() ==> #[trigger] k[j] != '}',
        k.len() == 0 || k[0] != '{',
    ensures
        resolve_template(seq!['{', '{'] + k + seq!['}', '}'], step, vars, prompts, yes_mode, escape, answers, cursor)
            == if has_line_break(v) {
                Err::<(Seq<char>, int), ResolveFailure>(ResolveFailure::NewlineInValue { step, placeholder: k })
            } else {
                Ok::<(Seq<char>, int), ResolveFailure>((spliced(v, escape), cursor))
            },
{
    let t = seq!['{', '{'] + k + seq!['}', '}'];
    let r = t.skip(2);
    assert(r =~= k + seq!['}', '}']);
    lemma_close_after_name(k, 0);
    assert(t[0] == '{' && t[1] == '{');
    if k.len() > 0 {
        assert(t[2] == k[0]);
    } else {
        assert(t[2] == '}');
    }
    assert(r.take(k.len() as int) =~= k);
    assert(r.skip(k.len() as int + 2) =~= Seq::<char>::empty());
    let toks = tokenize(t);
    assert(toks == seq![Token::Placeholder(k)] + tokenize(Seq::<char>::empty()));
    assert(toks.skip(1) =~= Seq::<Token>::empty());
    assert(toks[0] == Token::Placeholder(k));
    assert(placeholder_value(step, k, vars, prompts, yes_mode, answers, cursor) == Ok::<(Seq<char>, int), ResolveFailure>((v, cursor)));
    assert(resolve_tokens(toks.skip(1), step, vars, prompts, yes_mode, escape, answers, cursor)
        == Ok::<(Seq<char>, int), ResolveFailure>((Seq::<char>::empty(), cursor)));
    if !has_line_break(v) {
        assert(spliced(v, escape) + Seq::<char>::empty() =~= spliced(v, escape));
    }
}

// ---------------------------------------------------------------------------
// `--var key=value` flags
// ---------------------------------------------------------------------------

/// Why a `--var` entry was refused, over views.
pub enum VarFlagFailure {
    EmptyKey(Seq<char>),
    MissingEquals(Seq<char>),
}

/// Why a `--var` entry was refused.
#[derive(Debug)]
pub enum VarFlagError {
    /// The part before the first `=` is blank.
    EmptyKey(String),
    /// The entry holds no `=`.
    MissingEquals(String),
}

impl View for VarFlagError {
    type V = VarFlagFailure;

    open spec fn view(&self) -> VarFlagFailure {
        match self {
            VarFlagError::EmptyKey(s) => VarFlagFailure::EmptyKey(s@),
            VarFlagError::MissingEquals(s) => VarFlagFailure::MissingEquals(s@),
        }
    }
}

/// The message for a refused `--var` entry.
pub open spec fn var_flag_message(f: VarFlagFailure) -> Seq<char> {
    match f {
        VarFlagFailure::EmptyKey(v) => "invalid --var format '"@ + v + "': key must not be empty"@,
        VarFlagFailure::MissingEquals(v) => "invalid --var format '"@ + v + "': expected key=value"@,
    }
}

impl VarFlagError {
    /// The message of this error.
    pub fn message(&self) -> (m: String)
        ensures
            m@ == var_flag_message(self@),
    {
        match self {
            VarFlagError::EmptyKey(v) => {
                let mut m = String::from_str("invalid --var format '");
                m.append(v.as_str());
                m.append("': key must not be empty");
                m
            },
            VarFlagError::MissingEquals(v) => {
                let mut m = String::from_str("invalid --var format '");
                m.append(v.as_str());
                m.append("': expected key=value");
                m
            },
        }
    }
}

/// Index of the first `c` in `s` at or after `i`, or -1.
pub open spec fn index_of_from(s: Seq<char>, c: char, i: int) -> int
    decreases s.len() - i,
{
    if i < 0 || i >= s.len() {
        -1
    } else if s[i] == c {
        i
    } else {
        index_of_from(s, c, i + 1)
    }
}

/// The binding an entry `key=value` makes: the key is the trimmed text
/// before the first `=`, the value all text after it.
pub open spec fn var_binding(v: Seq<char>) -> Result<(Seq<char>, Seq<char>), VarFlagFailure> {
    let i = index_of_from(v, '=', 0);
    if i < 0 {
        Err(VarFlagFailure::MissingEquals(v))
    } else if trimmed(v.take(i)).len() == 0 {
        Err(VarFlagFailure::EmptyKey(v))
    } else {
        Ok((trimmed(v.take(i)), v.skip(i + 1)))
    }
}

/// A `--var` entry splits at its first `=`: the key is what comes before it,
/// trimmed, and must not be empty; the value is everything after it, further
/// `=` included; an entry without `=` is refused.
pub proof fn law_var_binding_splits_at_first_equals(k: Seq<char>, v: Seq<char>)
    ensures
        !k.contains('=') && trimmed(k).len() > 0 ==> var_binding(k + seq!['='] + v) == Ok::<(Seq<char>, Seq<char>), VarFlagFailure>((trimmed(k), v)),
        !k.contains('=') && trimmed(k).len() == 0 ==> var_binding(k + seq!['='] + v) == Err::<(Seq<char>, Seq<char>), VarFlagFailure>(VarFlagFailure::EmptyKey(k + seq!['='] + v)),
        !v.contains('=') ==> var_binding(v) == Err::<(Seq<char>, Seq<char>), VarFlagFailure>(VarFlagFailure::MissingEquals(v)),
{
    let e = k + seq!['='] + v;
    lemma_index_of_from(e, '=', 0);
    lemma_index_of_from(v, '=', 0);
    if !k.contains('=') {
        let i = index_of_from(e, '=', 0);
        assert(e[k.len() as int] == '=');
        if i != k.len() {
            assert(i < k.len());
            assert(e[i] == k[i]);
        }
        assert(e.take(k.len() as int) =~= k);
        assert(e.skip(k.len() as int + 1) =~= v);
    }
    if !v.contains('=') {
        if index_of_from(v, '=', 0) != -1 {
            assert(v[index_of_from(v, '=', 0)] == '=');
        }
    }
}

/// The bindings of a list of entries, in order, or the first refusal.
pub open spec fn parse_vars(vs: Seq<Seq<char>>) -> Result<Seq<(Seq<char>, Seq<char>)>, VarFlagFailure>
    decreases vs.len(),
{
    if vs.len() == 0 {
        Ok(seq![])
    } else {
        match var_binding(vs[0]) {
            Err(e) => Err(e),
            Ok(b) => match parse_vars(vs.skip(1)) {
                Ok(bs) => Ok(seq![b] + bs),
                Err(e) => Err(e),
            },
        }
    }
}

pub open spec fn prepend_bindings(
    d: Seq<(Seq<char>, Seq<char>)>,
    r: Result<Seq<(Seq<char>, Seq<char>)>, VarFlagFailure>,
) -> Result<Seq<(Seq<char>, Seq<char>)>, VarFlagFailure> {
    match r {
        Ok(bs) => Ok(d + bs),
        Err(e) => Err(e),
    }
}

pub proof fn lemma_index_of_from(s: Seq<char>, c: char, i: int)
    requires
        0 <= i,
    ensures
        index_of_from(s, c, i) == -1 || (i <= index_of_from(s, c, i) < s.len() && s[index_of_from(s, c, i)] == c
            && forall|j: int| i <= j < index_of_from(s, c, i) ==> s[j] != c),
        index_of_from(s, c, i) == -1 ==> forall|j: int| i <= j < s.len() ==> s[j] != c,
    decreases s.len() - i,
{
    if i < s.len() && s[i] != c {
        lemma_index_of_from(s, c, i + 1);
    }
}

fn index_of_char(s: &Vec<char>, c: char) -> (r: Option<usize>)
    ensures
        match r {
            Some(i) => i as int == index_of_from(s@, c, 0) && i < s@.len(),
            None => index_of_from(s@, c, 0) == -1,
        },
{
    let mut i: usize = 0;
    while i < s.len()
        invariant
            i <= s@.len(),
            index_of_from(s@, c, 0) == index_of_from(s@, c, i as int),
        decreases s@.len() - i,
    {
        if s[i] == c {
            return Some(i);
        }
        i = i + 1;
    }
    None
}

/// Parses `--var key=value` entries into a table; a later binding of a key
/// replaces an earlier one.
pub fn parse_var_flags(vars: &Vec<String>) -> (r: Result<StrMap<String>, VarFlagError>)
    ensures
        match r {
            Ok(m) => parse_vars(views(vars@)) is Ok && forall|k: Seq<char>|
                bound(m, k) == assoc_lookup(parse_vars(views(vars@))->Ok_0, k),
            Err(e) => parse_vars(views(vars@)) == Err::<Seq<(Seq<char>, Seq<char>)>, VarFlagFailure>(e@),
        },
{
    let ghost vs = views(vars@);
    let mut m: StrMap<String> = StrMap::new();
    let ghost mut done: Seq<(Seq<char>, Seq<char>)> = seq![];
    let mut i: usize = 0;
    assert(vs.skip(0) =~= vs);
    assert forall|k: Seq<char>| bound(m, k) == assoc_lookup(done, k) by {
        assert(m.spec_entries().len() == 0);
    }
    while i < vars.len()
        invariant
            vs == views(vars@),
            i <= vars@.len(),
            parse_vars(vs) == prepend_bindings(done, parse_vars(vs.skip(i as int))),
            forall|k: Seq<char>| bound(m, k) == assoc_lookup(done, k),
        decreases vars@.len() - i,
    {
        let v = &vars[i];
        assert(vs.skip(i as int)[0] == v@);
        assert(vs.skip(i as int).skip(1) =~= vs.skip(i + 1));
        let c = chars_of(v.as_str());
        proof {
            lemma_index_of_from(c@, '=', 0);
        }
        match index_of_char(&c, '=') {
            None => {
                return Err(VarFlagError::MissingEquals(v.clone()));
            },
            Some(p) => {
                let before = slice_chars(&c, 0, p);
                assert(before@ =~= v@.take(p as int));
                let key = trim_chars(&before);
                if key.len() == 0 {
                    return Err(VarFlagError::EmptyKey(v.clone()));
                }
                let value = slice_chars(&c, p + 1, c.len());
                assert(value@ =~= v@.skip(p + 1));
                let ks = string_from_chars(&key);
                let vstr = string_from_chars(&value);
                let ghost old_m = m;
                m.insert(ks, vstr);
                proof {
                    let b = (key@, value@);
                    let old_done = done;
                    done = done.push(b);
                    assert forall|k: Seq<char>| bound(m, k) == assoc_lookup(done, k) by {
                        assert(done.drop_last() =~= old_done);
                        if k != key@ {
                            assert(bound(m, k) == bound(old_m, k));
                        }
                    }
                    match parse_vars(vs.skip(i + 1)) {
                        Ok(bs) => { assert(old_done + (seq![b] + bs) =~= done + bs); },
                        Err(e) => {},
                    }
                }
            },
        }
        i = i + 1;
    }
    proof {
        assert(vs.skip(vars@.len() as int) =~= Seq::<Seq<char>>::empty());
        assert(done + Seq::<(Seq<char>, Seq<char>)>::empty() =~= done);
    }
    Ok(m)
}

// ---------------------------------------------------------------------------
// Lists of templates
// ---------------------------------------------------------------------------

pub open spec fn prepend_list(
    d: Seq<Seq<char>>,
    r: Result<(Seq<Seq<char>>, int), ResolveFailure>,
) -> Result<(Seq<Seq<char>>, int), ResolveFailure> {
    match r {
        Ok((xs, c)) => Ok((d + xs, c)),
        Err(e) => Err(e),
    }
}

/// Resolution of several templates in order, the answers threaded through.
pub open spec fn resolve_list(
    ts: Seq<Seq<char>>,
    step: Seq<char>,
    vars: StrMap<String>,
    prompts: StrMap<String>,
    yes_mode: bool,
    escape: bool,
    answers: Seq<Seq<char>>,
    cursor: int,
) -> Result<(Seq<Seq<char>>, int), ResolveFailure>
    decreases ts.len(),
{
    if ts.len() == 0 {
        Ok((seq![], cursor))
    } else {
        match resolve_template(ts[0], step, vars, prompts, yes_mode, escape, answers, cursor) {
            Err(e) => Err(e),
            Ok((x, c)) => prepend_list(
                seq![x],
                resolve_list(ts.skip(1), step, vars, prompts, yes_mode, escape, answers, c),
            ),
        }
    }
}

/// Resolves each template of `ts` in order, from answer `cursor` on.
pub fn resolve_list_from(
    step_name: &str,
    ts: &Vec<String>,
    prompts: &StrMap<String>,
    vars: &StrMap<String>,
    yes_mode: bool,
    shell_escape_values: bool,
    answers: &Vec<String>,
    cursor: usize,
) -> (r: Result<(Vec<String>, usize), ResolveError>)
    requires
        cursor <= answers@.len(),
    ensures
        match r {
            Ok((xs, c)) => c <= answers@.len() && resolve_list(views(ts@), step_name@, *vars, *prompts, yes_mode, shell_escape_values, views(answers@), cursor as int) == Ok::<(Seq<Seq<char>>, int), ResolveFailure>((views(xs@), c as int)),
            Err(e) => resolve_list(views(ts@), step_name@, *vars, *prompts, yes_mode, shell_escape_values, views(answers@), cursor as int) == Err::<(Seq<Seq<char>>, int), ResolveFailure>(e@),
        },
{
    let ghost tv = views(ts@);
    let ghost ans = views(answers@);
    let mut out: Vec<String> = Vec::new();
    let mut cur = cursor;
    let mut i: usize = 0;
    assert(tv.skip(0) =~= tv);
    assert(views(out@) =~= Seq::<Seq<char>>::empty());
    while i < ts.len()
        invariant
            tv == views(ts@),
            ans == views(answers@),
            i <= ts@.len(),
            cur <= answers@.len(),
            resolve_list(tv, step_name@, *vars, *prompts, yes_mode, shell_escape_values, ans, cursor as int)
                == prepend_list(views(out@), resolve_list(tv.skip(i as int), step_name@, *vars, *prompts, yes_mode, shell_escape_values, ans, cur as int)),
        decreases ts@.len() - i,
    {
        assert(tv.skip(i as int)[0] == ts@[i as int]@);
        assert(tv.skip(i as int).skip(1) =~= tv.skip(i + 1));
        match resolve_from(ts[i].as_str(), step_name, vars, prompts, yes_mode, shell_escape_values, answers, cur) {
            Err(e) => {
                return Err(e);
            },
            Ok((x, c)) => {
                let ghost before = views(out@);
                out.push(x);
                proof {
                    assert(views(out@) =~= before.push(x@));
                    match resolve_list(tv.skip(i + 1), step_name@, *vars, *prompts, yes_mode, shell_escape_values, ans, c as int) {
                        Ok((xs, cc)) => { assert(before + (seq![x@] + xs) =~= views(out@) + xs); },
                        Err(e) => {},
                    }
                }
                cur = c;
            },
        }
        i = i + 1;
    }
    proof {
        assert(tv.skip(ts@.len() as int) =~= Seq::<Seq<char>>::empty());
        assert(views(out@) + Seq::<Seq<char>>::empty() =~= views(out@));
    }
    Ok((out, cur))
}

/// The resolved texts of a list, answers counted from the first.
pub open spec fn resolved_list(
    ts: Seq<Seq<char>>,
    step: Seq<char>,
    vars: StrMap<String>,
    prompts: StrMap<String>,
    yes_mode: bool,
    escape: bool,
    answers: Seq<Seq<char>>,
) -> Result<Seq<Seq<char>>, ResolveFailure> {
    match resolve_list(ts, step, vars, prompts, yes_mode, escape, answers, 0) {
        Ok((xs, _)) => Ok(xs),
        Err(e) => Err(e),
    }
}

/// Resolves every element of a step's `args`.
pub fn resolve_args(
    step_name: &str,
    args: &Vec<String>,
    prompts: &StrMap<String>,
    vars: &StrMap<String>,
    yes_mode: bool,
    shell_escape_values: bool,
    answers: &Vec<String>,
) -> (r: Result<Vec<String>, ResolveError>)
    ensures
        match r {
            Ok(xs) => resolved_list(views(args@), step_name@, *vars, *prompts, yes_mode, shell_escape_values, views(answers@)) == Ok::<Seq<Seq<char>>, ResolveFailure>(views(xs@)),
            Err(e) => resolved_list(views(args@), step_name@, *vars, *prompts, yes_mode, shell_escape_values, views(answers@)) == Err::<Seq<Seq<char>>, ResolveFailure>(e@),
        },
{
    match resolve_list_from(step_name, args, prompts, vars, yes_mode, shell_escape_values, answers, 0) {
        Ok((xs, _)) => Ok(xs),
        Err(e) => Err(e),
    }
}

/// The values of a string table, by view, in insertion order.
pub open spec fn table_values(m: StrMap<String>) -> Seq<Seq<char>> {
    m.spec_entries().map_values(|e: (Seq<char>, String)| e.1@)
}

/// The keys and values of a list of pairs, by view.
pub open spec fn pair_views(v: Seq<(String, String)>) -> Seq<(Seq<char>, Seq<char>)> {
    v.map_values(|p: (String, String)| (p.0@, p.1@))
}

/// Pairs each key of `m` with the value at the same place in `vs`.
pub open spec fn zip_keys(m: StrMap<String>, vs: Seq<Seq<char>>) -> Seq<(Seq<char>, Seq<char>)> {
    Seq::new(vs.len(), |i: int| (m.spec_keys()[i], vs[i]))
}

fn table_values_exec(m: &StrMap<String>) -> (v: Vec<String>)
    ensures
        views(v@) == table_values(*m),
{
    let mut v: Vec<String> = Vec::new();
    let mut i: usize = 0;
    while i < m.len()
        invariant
            i <= m.spec_entries().len(),
            views(v@) == table_values(*m).take(i as int),
        decreases m.spec_entries().len() - i,
    {
        let ghost before = views(v@);
        let x = copy_string(m.value_at(i));
        v.push(x);
        assert(views(v@) =~= before.push(x@));
        i = i + 1;
        assert(views(v@) =~= table_values(*m).take(i as int));
    }
    assert(table_values(*m).take(i as int) =~= table_values(*m));
    v
}

/// Resolves every value of a step's `env` table, keys kept in table order.
/// Env values are never shell-quoted.
pub fn resolve_env_from(
    step_name: &str,
    env: &StrMap<String>,
    prompts: &StrMap<String>,
    vars: &StrMap<String>,
    yes_mode: bool,
    answers: &Vec<String>,
    cursor: usize,
) -> (r: Result<(Vec<(String, String)>, usize), ResolveError>)
    requires
        cursor <= answers@.len(),
    ensures
        match r {
            Ok((kv, c)) => c <= answers@.len() && exists|xs: Seq<Seq<char>>| resolve_list(table_values(*env), step_name@, *vars, *prompts, yes_mode, false, views(answers@), cursor as int) == Ok::<(Seq<Seq<char>>, int), ResolveFailure>((xs, c as int))
                && pair_views(kv@) == zip_keys(*env, xs),
            Err(e) => resolve_list(table_values(*env), step_name@, *vars, *prompts, yes_mode, false, views(answers@), cursor as int) == Err::<(Seq<Seq<char>>, int), ResolveFailure>(e@),
        },
{
    let values = table_values_exec(env);
    match resolve_list_from(step_name, &values, prompts, vars, yes_mode, false, answers, cursor) {
        Err(e) => Err(e),
        Ok((xs, c)) => {
            proof {
                lemma_resolve_list_len(views(values@), step_name@, *vars, *prompts, yes_mode, false, views(answers@), cursor as int);
            }
            let mut kv: Vec<(String, String)> = Vec::new();
            let mut i: usize = 0;
            while i < xs.len()
                invariant
                    i <= xs@.len(),
                    xs@.len() == env.spec_entries().len(),
                    pair_views(kv@) == zip_keys(*env, views(xs@)).take(i as int),
                decreases xs@.len() - i,
            {
                let ghost before = pair_views(kv@);
                let p = (copy_string(env.key_at(i)), copy_string(&xs[i]));
                kv.push(p);
                assert(pair_views(kv@) =~= before.push((p.0@, p.1@)));
                assert(views(xs@)[i as int] == xs@[i as int]@);
                i = i + 1;
                assert(pair_views(kv@) =~= zip_keys(*env, views(xs@)).take(i as int));
            }
            assert(zip_keys(*env, views(xs@)).take(i as int) =~= zip_keys(*env, views(xs@)));
            Ok((kv, c))
        },
    }
}

pub(crate) proof fn lemma_resolve_list_len(
    ts: Seq<Seq<char>>,
    step: Seq<char>,
    vars: StrMap<String>,
    prompts: StrMap<String>,
    yes_mode: bool,
    escape: bool,
    answers: Seq<Seq<char>>,
    cursor: int,
)
    ensures
        match resolve_list(ts, step, vars, prompts, yes_mode, escape, answers, cursor) {
            Ok((xs, _)) => xs.len() == ts.len(),
            Err(_) => true,
        },
    decreases ts.len(),
{
    if ts.len() > 0 {
        match resolve_template(ts[0], step, vars, prompts, yes_mode, escape, answers, cursor) {
            Err(e) => {},
            Ok((x, c)) => {
                lemma_resolve_list_len(ts.skip(1), step, vars, prompts, yes_mode, escape, answers, c);
            },
        }
    }
}

/// Resolves every value of a step's `env` table.
pub fn resolve_env(
    step_name: &str,
    env: &StrMap<String>,
    prompts: &StrMap<String>,
    vars: &StrMap<String>,
    yes_mode: bool,
    answers: &Vec<String>,
) -> (r: Result<Vec<(String, String)>, ResolveError>)
    ensures
        match r {
            Ok(kv) => exists|xs: Seq<Seq<char>>| resolved_list(table_values(*env), step_name@, *vars, *prompts, yes_mode, false, views(answers@)) == Ok::<Seq<Seq<char>>, ResolveFailure>(xs)
                && pair_views(kv@) == zip_keys(*env, xs),
            Err(e) => resolved_list(table_values(*env), step_name@, *vars, *prompts, yes_mode, false, views(answers@)) == Err::<Seq<Seq<char>>, ResolveFailure>(e@),
        },
{
    match resolve_env_from(step_name, env, prompts, vars, yes_mode, answers, 0) {
        Ok((kv, _)) => Ok(kv),
        Err(e) => Err(e),
    }
}

// ---------------------------------------------------------------------------
// Orphan prompts
// ---------------------------------------------------------------------------

/// `{{key}}`.
pub open spec fn placeholder_text(k: Seq<char>) -> Seq<char> {
    seq!['{', '{'] + k + seq!['}', '}']
}

/// No element of `args` mentions `{{key}}`.
pub open spec fn unreferenced(args: Seq<Seq<char>>, k: Seq<char>) -> bool {
    forall|i: int| 0 <= i < args.len() ==> !contains_seq(#[trigger] args[i], placeholder_text(k))
}

/// The prompt keys that no `args` element mentions, in table order.
pub open spec fn orphan_keys(args: Seq<Seq<char>>, keys: Seq<Seq<char>>) -> Seq<Seq<char>> {
    keys.filter(|k: Seq<char>| unreferenced(args, k))
}

/// The keys of `prompts` that no element of `args` mentions as `{{key}}`.
pub fn orphan_prompt_keys(args: &Vec<String>, prompts: &StrMap<String>) -> (r: Vec<String>)
    ensures
        views(r@) == orphan_keys(views(args@), prompts.spec_keys()),
{
    let ghost av = views(args@);
    let ghost keys = prompts.spec_keys();
    let mut r: Vec<String> = Vec::new();
    let mut i: usize = 0;
    while i < prompts.len()
        invariant
            av == views(args@),
            keys == prompts.spec_keys(),
            i <= keys.len(),
            views(r@) == orphan_keys(av, keys.take(i as int)),
        decreases keys.len() - i,
    {
        let k = prompts.key_at(i);
        let mut needle = two('{');
        let kc = chars_of(k.as_str());
        push_chars(&mut needle, &kc);
        push_chars(&mut needle, &two('}'));
        let mut referenced = false;
        let mut j: usize = 0;
        while j < args.len()
            invariant
                av == views(args@),
                j <= args@.len(),
                needle@ == placeholder_text(k@),
                referenced == exists|a: int| 0 <= a < j && contains_seq(av[a], needle@),
            decreases args@.len() - j,
        {
            let ac = chars_of(args[j].as_str());
            assert(av[j as int] == ac@);
            let hit = contains_chars(&ac, &needle);
            proof {
                if referenced {
                    let a = choose|a: int| 0 <= a < j && contains_seq(av[a], needle@);
                    assert(0 <= a < j + 1 && contains_seq(av[a], needle@));
                }
                if hit {
                    assert(0 <= j < j + 1 && contains_seq(av[j as int], needle@));
                }
                if !referenced && !hit {
                    assert forall|a: int| 0 <= a < j + 1 implies !contains_seq(av[a], needle@) by {
                        if a < j {
                        } else {
                            assert(a == j);
                        }
                    }
                }
            }
            if hit {
                referenced = true;
            }
            j = j + 1;
        }
        assert(k@ == keys[i as int]);
        let ghost before = views(r@);
        if !referenced {
            r.push(k.clone());
        }
        proof {
            reveal_with_fuel(Seq::filter, 1);
            let t = keys.take(i + 1);
            assert(t.drop_last() =~= keys.take(i as int));
            if referenced {
                let a = choose|a: int| 0 <= a < j && contains_seq(av[a], needle@);
                assert(!unreferenced(av, k@));
            } else {
                assert(unreferenced(av, k@));
                assert(views(r@) =~= before.push(k@));
            }
        }
        i = i + 1;
    }
    assert(keys.take(i as int) =~= keys);
    r
}

/// The warning for a `prompts` entry no `args` element refers to.
pub fn orphan_prompt_warning(step_name: &str, key: &str) -> (r: String)
    ensures
        r@ == "warning: prompts."@ + key@ + " in step '"@ + step_name@
            + "' is not referenced in any args element"@,
{
    let mut out: Vec<char> = Vec::new();
    push_str(&mut out, "warning: prompts.");
    push_str(&mut out, key);
    push_str(&mut out, " in step '");
    push_str(&mut out, step_name);
    push_str(&mut out, "' is not referenced in any args element");
    string_from_chars(&out)
}

} // verus!
