//! Properties of scanning that relate several inputs or calls.
use crate::error::ErrorView;
use crate::lexicon::{
    alnum_run, is_alnum, is_blank, is_number_char, lemma_scan_string_bound, lemma_skip_line_bound,
    lemma_step_bounds, lex, newline_count, Skipped, number_run, scan_string, skip_line, starts_with, step, Lexed, Outcome,
    Step,
};
use crate::token::{keyword_or_id, TokenType, TokenView};
use vstd::prelude::*;

verus! {

/// Text made only of whitespace, newlines and line comments.
pub open spec fn only_blanks(s: Seq<char>) -> bool
    decreases s.len(), 1nat,
{
    if s.len() == 0 {
        true
    } else if is_blank(s[0]) || s[0] == '\n' {
        only_blanks(s.drop_first())
    } else if s.len() >= 2 && s[0] == '/' && s[1] == '/' {
        comment_then_blanks(s.skip(2))
    } else {
        false
    }
}

/// The rest of a line comment, then text made only of blanks and comments.
pub open spec fn comment_then_blanks(s: Seq<char>) -> bool
    decreases s.len(), 0nat,
{
    if s.len() == 0 {
        true
    } else if s[0] == '\n' {
        only_blanks(s.drop_first())
    } else {
        comment_then_blanks(s.drop_first())
    }
}

/// Text made only of whitespace and line comments scans to no token and no
/// error, whatever line it starts on.
pub proof fn law_blank_text_has_no_tokens(s: Seq<char>, line: nat)
    requires
        only_blanks(s),
    ensures
        lex(s, line).tokens == Seq::<TokenView>::empty(),
        lex(s, line).error is None,
    decreases s.len(), 1nat,
{
    if s.len() > 0 {
        lemma_step_bounds(s);
        if is_blank(s[0]) || s[0] == '\n' {
            law_blank_text_has_no_tokens(s.drop_first(), line + step(s).lines);
        } else {
            let body = s.skip(2);
            assert(s.drop_first().drop_first() =~= body);
            lemma_skip_line_bound(body);
            lemma_comment_has_no_tokens(body, line);
            assert(body.skip(skip_line(body).len as int) =~= s.skip(step(s).len as int));
        }
    }
}

proof fn lemma_comment_has_no_tokens(s: Seq<char>, line: nat)
    requires
        comment_then_blanks(s),
    ensures
        lex(s.skip(skip_line(s).len as int), line + skip_line(s).lines).tokens == Seq::<
            TokenView,
        >::empty(),
        lex(s.skip(skip_line(s).len as int), line + skip_line(s).lines).error is None,
    decreases s.len(), 0nat,
{
    if s.len() == 0 {
    } else if s[0] == '\n' {
        assert(s.skip(1) =~= s.drop_first());
        law_blank_text_has_no_tokens(s.drop_first(), line + 1);
    } else {
        lemma_comment_has_no_tokens(s.drop_first(), line);
        lemma_skip_line_bound(s.drop_first());
        assert(s.drop_first().skip(skip_line(s.drop_first()).len as int) =~= s.skip(
            skip_line(s).len as int,
        ));
    }
}

/// The tokens `tokens` with every line moved down by `d`.
pub open spec fn shift_tokens(tokens: Seq<TokenView>, d: nat) -> Seq<TokenView> {
    tokens.map_values(|t: TokenView| TokenView { kind: t.kind, line: t.line + d })
}

/// The error `e`, if any, with its line moved down by `d`.
pub open spec fn shift_error(e: Option<ErrorView>, d: nat) -> Option<ErrorView> {
    match e {
        Some(e) => Some(ErrorView { line: e.line + d, message: e.message }),
        None => None,
    }
}

/// Starting a scan `d` lines further down moves every reported line down by
/// `d` and changes nothing else.
pub proof fn law_line_shift(s: Seq<char>, line: nat, d: nat)
    ensures
        lex(s, line + d).tokens == shift_tokens(lex(s, line).tokens, d),
        lex(s, line + d).error == shift_error(lex(s, line).error, d),
        lex(s, line + d).line == lex(s, line).line + d,
    decreases s.len(),
{
    if s.len() > 0 {
        lemma_step_bounds(s);
        let st = step(s);
        let rest = s.skip(st.len as int);
        law_line_shift(rest, line + st.lines, d);
        assert(line + d + st.lines == line + st.lines + d);
        match st.outcome {
            Outcome::Tok(kind) => {
                assert(lex(s, line + d).tokens =~= shift_tokens(lex(s, line).tokens, d));
            },
            _ => {},
        }
    } else {
        assert(lex(s, line + d).tokens =~= shift_tokens(lex(s, line).tokens, d));
    }
}

proof fn lemma_number_run_append(u: Seq<char>, t: Seq<char>)
    requires
        t.len() > 0,
        !is_number_char(t[0]),
    ensures
        number_run(u + t) == number_run(u),
    decreases u.len(),
{
    if u.len() > 0 {
        assert((u + t).drop_first() =~= u.drop_first() + t);
        lemma_number_run_append(u.drop_first(), t);
    } else {
        assert(u + t =~= t);
    }
}

proof fn lemma_alnum_run_append(u: Seq<char>, t: Seq<char>)
    requires
        t.len() > 0,
        !is_alnum(t[0]),
    ensures
        alnum_run(u + t) == alnum_run(u),
    decreases u.len(),
{
    if u.len() > 0 {
        assert((u + t).drop_first() =~= u.drop_first() + t);
        lemma_alnum_run_append(u.drop_first(), t);
    } else {
        assert(u + t =~= t);
    }
}

proof fn lemma_scan_string_append(u: Seq<char>, t: Seq<char>)
    requires
        scan_string(u).closed,
    ensures
        scan_string(u + t) == scan_string(u),
    decreases u.len(),
{
    if u.len() > 0 && u[0] != '"' {
        assert((u + t).drop_first() =~= u.drop_first() + t);
        lemma_scan_string_append(u.drop_first(), t);
    }
}

/// A comment that finds its newline inside `u` ends there; one that does
/// not runs through the newline that starts `t`.
proof fn lemma_skip_line_append(u: Seq<char>, t: Seq<char>)
    requires
        t.len() > 0,
        t[0] == '\n',
    ensures
        skip_line(u).lines == 1 ==> skip_line(u + t) == skip_line(u),
        skip_line(u).lines == 0 ==> skip_line(u).len == u.len() && skip_line(u + t) == (Skipped {
            len: u.len() + 1,
            lines: 1,
        }),
        skip_line(u).lines <= 1,
    decreases u.len(),
{
    if u.len() > 0 {
        assert((u + t).drop_first() =~= u.drop_first() + t);
        if u[0] != '\n' {
            lemma_skip_line_append(u.drop_first(), t);
        }
    } else {
        assert(u + t =~= t);
    }
}

/// Extending an input that does not fail at its first step by a newline and
/// more text: the step is the same, unless it is a comment that ran to the
/// end of the input, which now runs through that newline.
proof fn lemma_step_append(a: Seq<char>, b: Seq<char>)
    requires
        a.len() > 0,
        !(step(a).outcome is Fail),
    ensures
        ({
            let s = a + seq!['\n'] + b;
            let st = step(a);
            ||| step(s) == st && st.len <= a.len()
            ||| st.outcome == Outcome::Comment && st.len == a.len() && st.lines == 0 && step(s) == (
            Step { outcome: Outcome::Comment, len: a.len() + 1, lines: 1 })
        }),
{
    let t = seq!['\n'] + b;
    let s = a + seq!['\n'] + b;
    assert(s =~= a + t);
    let ra = a.drop_first();
    let rs = s.drop_first();
    assert(rs =~= ra + t);
    lemma_step_bounds(a);
    if ra.len() > 0 {
        assert(rs[0] == ra[0]);
    }
    let c = a[0];
    if c == '/' && starts_with(ra, '/') {
        let ua = ra.drop_first();
        assert(rs.drop_first() =~= ua + t);
        lemma_skip_line_append(ua, t);
    } else if c == '"' {
        lemma_scan_string_append(ra, t);
    } else if crate::lexicon::is_digit(c) {
        lemma_number_run_append(ra, t);
        crate::lexicon::lemma_number_run_bound(ra);
        assert(rs.take(number_run(ra) as int) =~= ra.take(number_run(ra) as int));
    } else if crate::lexicon::is_alpha(c) {
        lemma_alnum_run_append(ra, t);
        crate::lexicon::lemma_alnum_run_bound(ra);
        assert(rs.take(alnum_run(ra) as int) =~= ra.take(alnum_run(ra) as int));
    }
}

/// Scanning `a`, a newline and `b`, where `a` scans without error from
/// `line`, is scanning `a` and then `b` from the line after the one on which
/// `a` ended.
proof fn lemma_lex_append(a: Seq<char>, b: Seq<char>, line: nat)
    requires
        lex(a, line).error is None,
    ensures
        ({
            let first = lex(a, line);
            let second = lex(b, first.line + 1);
            lex(a + seq!['\n'] + b, line) == (Lexed {
                tokens: first.tokens + second.tokens,
                error: second.error,
                line: second.line,
            })
        }),
    decreases a.len(),
{
    let s = a + seq!['\n'] + b;
    if a.len() == 0 {
        assert(s.drop_first() =~= b);
        assert(s.skip(1) =~= b);
        assert(lex(a, line).tokens + lex(b, line + 1).tokens =~= lex(b, line + 1).tokens);
    } else {
        let st = step(a);
        lemma_step_bounds(a);
        lemma_step_append(a, b);
        let next = line + st.lines;
        if step(s) == st && st.len <= a.len() {
            let rest = a.skip(st.len as int);
            assert(s.skip(st.len as int) =~= rest + seq!['\n'] + b);
            lemma_lex_append(rest, b, next);
            match st.outcome {
                Outcome::Tok(kind) => {
                    let first = lex(a, line);
                    let second = lex(b, first.line + 1);
                    assert(seq![TokenView { kind, line }] + (lex(rest, next).tokens + second.tokens)
                        =~= first.tokens + second.tokens);
                },
                _ => {},
            }
        } else {
            assert(s.skip(a.len() + 1 as int) =~= b);
            assert(a.skip(a.len() as int) =~= Seq::<char>::empty());
            assert(lex(a, line).tokens + lex(b, line + 1).tokens =~= lex(b, line + 1).tokens);
        }
    }
}

/// Scanning two fragments joined by a newline, the first of which scans
/// without error, gives the tokens of the first followed by those of the
/// second, whose lines are moved down by the line on which the first ended;
/// the second alone decides whether there is an error, and where.
pub proof fn law_concatenation(a: Seq<char>, b: Seq<char>)
    requires
        lex(a, 1).error is None,
    ensures
        lex(a + seq!['\n'] + b, 1).tokens == lex(a, 1).tokens + shift_tokens(
            lex(b, 1).tokens,
            lex(a, 1).line,
        ),
        lex(a + seq!['\n'] + b, 1).error == shift_error(lex(b, 1).error, lex(a, 1).line),
{
    lemma_lex_append(a, b, 1);
    law_line_shift(b, 1, lex(a, 1).line);
}

/// The number of newlines in `s`.
pub open spec fn newline_total(s: Seq<char>) -> nat
    decreases s.len(),
{
    if s.len() == 0 {
        0
    } else {
        newline_count(s[0]) + newline_total(s.drop_first())
    }
}

/// The positions in `s` at which the tokens of a scan start.
pub open spec fn token_starts(s: Seq<char>) -> Seq<nat>
    decreases s.len(),
    via token_starts_decreases
{
    if s.len() == 0 {
        seq![]
    } else {
        let st = step(s);
        let later = token_starts(s.skip(st.len as int)).map_values(|p: nat| p + st.len);
        match st.outcome {
            Outcome::Fail(_) => seq![],
            Outcome::Tok(_) => seq![0nat] + later,
            _ => later,
        }
    }
}

#[via_fn]
proof fn token_starts_decreases(s: Seq<char>) {
    if s.len() > 0 {
        lemma_step_bounds(s);
    }
}

proof fn lemma_newline_total_add(x: Seq<char>, y: Seq<char>)
    ensures
        newline_total(x + y) == newline_total(x) + newline_total(y),
    decreases x.len(),
{
    if x.len() > 0 {
        assert((x + y).drop_first() =~= x.drop_first() + y);
        lemma_newline_total_add(x.drop_first(), y);
    } else {
        assert(x + y =~= y);
    }
}

proof fn lemma_newline_total_take(s: Seq<char>, k: int)
    requires
        1 <= k <= s.len(),
    ensures
        newline_total(s.take(k)) == newline_count(s[0]) + newline_total(s.drop_first().take(k - 1)),
{
    assert(s.take(k).drop_first() =~= s.drop_first().take(k - 1));
}

proof fn lemma_skip_line_lines(u: Seq<char>)
    ensures
        skip_line(u).lines == newline_total(u.take(skip_line(u).len as int)),
    decreases u.len(),
{
    lemma_skip_line_bound(u);
    if u.len() > 0 {
        lemma_newline_total_take(u, skip_line(u).len as int);
        if u[0] != '\n' {
            lemma_skip_line_lines(u.drop_first());
        } else {
            assert(u.drop_first().take(0) =~= Seq::<char>::empty());
        }
    } else {
        assert(u.take(0) =~= Seq::<char>::empty());
    }
}

proof fn lemma_scan_string_lines(u: Seq<char>)
    ensures
        scan_string(u).lines == newline_total(u.take(scan_string(u).len as int)),
    decreases u.len(),
{
    lemma_scan_string_bound(u);
    if u.len() > 0 {
        lemma_newline_total_take(u, scan_string(u).len as int);
        if u[0] != '"' {
            lemma_scan_string_lines(u.drop_first());
        } else {
            assert(u.drop_first().take(0) =~= Seq::<char>::empty());
        }
    } else {
        assert(u.take(0) =~= Seq::<char>::empty());
    }
}

proof fn lemma_number_run_lines(u: Seq<char>)
    ensures
        newline_total(u.take(number_run(u) as int)) == 0,
    decreases u.len(),
{
    crate::lexicon::lemma_number_run_bound(u);
    if u.len() > 0 && is_number_char(u[0]) {
        lemma_newline_total_take(u, number_run(u) as int);
        lemma_number_run_lines(u.drop_first());
    } else {
        assert(u.take(0) =~= Seq::<char>::empty());
    }
}

proof fn lemma_alnum_run_lines(u: Seq<char>)
    ensures
        newline_total(u.take(alnum_run(u) as int)) == 0,
    decreases u.len(),
{
    crate::lexicon::lemma_alnum_run_bound(u);
    if u.len() > 0 && is_alnum(u[0]) {
        lemma_newline_total_take(u, alnum_run(u) as int);
        lemma_alnum_run_lines(u.drop_first());
    } else {
        assert(u.take(0) =~= Seq::<char>::empty());
    }
}

/// The newlines that a step counts are those among the characters it
/// consumes.
proof fn lemma_step_lines(s: Seq<char>)
    requires
        s.len() > 0,
    ensures
        step(s).lines == newline_total(s.take(step(s).len as int)),
{
    lemma_step_bounds(s);
    let rest = s.drop_first();
    let c = s[0];
    lemma_newline_total_take(s, step(s).len as int);
    assert(rest.take(0) =~= Seq::<char>::empty());
    if step(s).len >= 2 {
        lemma_newline_total_take(rest, step(s).len - 1);
        assert(rest.drop_first().take(0) =~= Seq::<char>::empty());
    }
    if c == '/' && starts_with(rest, '/') {
        lemma_skip_line_lines(rest.drop_first());
    } else if c == '"' {
        lemma_scan_string_lines(rest);
    } else if crate::lexicon::is_digit(c) {
        lemma_number_run_lines(rest);
    } else if crate::lexicon::is_alpha(c) {
        lemma_alnum_run_lines(rest);
    }
}

/// Line numbers are those of counting by hand. The tokens of a scan start at
/// increasing positions of the input, one position for each; each token's
/// line is the starting line plus the newlines before its position, those
/// inside strings and comments included. A scan that ends without error ends
/// on the starting line plus the newlines of the whole input.
pub proof fn law_line_numbers(s: Seq<char>, line: nat)
    ensures
        token_starts(s).len() == lex(s, line).tokens.len(),
        forall|i: int|
            0 <= i < token_starts(s).len() ==> {
                &&& token_starts(s)[i] < s.len()
                &&& #[trigger] lex(s, line).tokens[i].line == line + newline_total(
                    s.take(token_starts(s)[i] as int),
                )
            },
        forall|i: int, j: int|
            0 <= i < j < token_starts(s).len() ==> token_starts(s)[i] < token_starts(s)[j],
        lex(s, line).error is None ==> lex(s, line).line == line + newline_total(s),
    decreases s.len(),
{
    if s.len() == 0 {
        return;
    }
    lemma_step_bounds(s);
    lemma_step_lines(s);
    let st = step(s);
    let k = st.len as int;
    let rest = s.skip(k);
    let next = line + st.lines;
    law_line_numbers(rest, next);
    assert(s =~= s.take(k) + rest);
    lemma_newline_total_add(s.take(k), rest);
    let rs = token_starts(rest);
    let later = rs.map_values(|p: nat| p + st.len);
    assert forall|m: int| 0 <= m < rs.len() implies newline_total(s.take(later[m] as int))
        == st.lines + newline_total(rest.take(rs[m] as int)) && later[m] < s.len() by {
        assert(lex(rest, next).tokens[m].line == next + newline_total(rest.take(rs[m] as int)));
        assert(later[m] == rs[m] + st.len);
        assert(s.take(later[m] as int) =~= s.take(k) + rest.take(rs[m] as int));
        lemma_newline_total_add(s.take(k), rest.take(rs[m] as int));
    }
    match st.outcome {
        Outcome::Tok(_) => {
            let starts = token_starts(s);
            assert(starts =~= seq![0nat] + later);
            assert(s.take(0) =~= Seq::<char>::empty());
            assert forall|i: int| 0 < i < starts.len() implies #[trigger] lex(s, line).tokens[i]
                == lex(rest, next).tokens[i - 1] && starts[i] == later[i - 1] by {}
        },
        Outcome::Fail(_) => {},
        _ => {
            assert(token_starts(s) =~= later);
        },
    }
}

/// No token that a scan reads from the input is the end-of-input token, so a
/// scan's output holds exactly one, the last.
pub proof fn law_end_of_input_only_at_end(s: Seq<char>, line: nat)
    ensures
        forall|i: int|
            0 <= i < lex(s, line).tokens.len() ==> #[trigger] lex(s, line).tokens[i].kind
                != TokenType::<Seq<char>>::EOF,
    decreases s.len(),
{
    if s.len() > 0 {
        lemma_step_bounds(s);
        let st = step(s);
        let next = line + st.lines;
        law_end_of_input_only_at_end(s.skip(st.len as int), next);
        let rest = s.drop_first();
        let n = alnum_run(rest);
        assert(keyword_or_id(seq![s[0]] + rest.take(n as int)) != TokenType::<Seq<char>>::EOF);
        match st.outcome {
            Outcome::Tok(kind) => {
                assert forall|i: int| 0 < i < lex(s, line).tokens.len() implies #[trigger] lex(
                    s,
                    line,
                ).tokens[i] == lex(s.skip(st.len as int), next).tokens[i - 1] by {}
            },
            _ => {},
        }
    }
}

} // verus!
