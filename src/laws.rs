use vstd::prelude::*;
use crate::model::{
    char_at, ident_char, is_blank, lemma_newlines_push, lemma_run_len_bound, lemma_step_bounds, line_run,
    newlines, opt_seq, scan, scan_from, step, string_run, TokenModel,
};
use crate::token::TokenType;

verus! {

proof fn lemma_scan_from_ends(s: Seq<char>, i: nat, line: nat)
    ensures
        scan_from(s, i, line).tokens.len() >= 1,
        scan_from(s, i, line).tokens.last().kind == TokenType::Eof,
        scan_from(s, i, line).tokens.last().start == s.len(),
        scan_from(s, i, line).tokens.last().end == s.len(),
        forall|k: int|
            0 <= k < scan_from(s, i, line).tokens.len() - 1 ==> (#[trigger] scan_from(
                s,
                i,
                line,
            ).tokens[k]).kind != TokenType::Eof,
    decreases s.len() - i,
{
    if i < s.len() {
        let st = step(s, i, line);
        lemma_step_bounds(s, i, line);
        lemma_scan_from_ends(s, st.next, st.next_line);
        let rest = scan_from(s, st.next, st.next_line);
        let all = scan_from(s, i, line);
        assert(all.tokens == opt_seq(st.token) + rest.tokens);
        assert forall|k: int| 0 <= k < all.tokens.len() - 1 implies (
        #[trigger] all.tokens[k]).kind != TokenType::Eof by {
            if st.token is Some && k == 0 {
            } else {
                let d = if st.token is Some { 1int } else { 0int };
                assert(all.tokens[k] == rest.tokens[k - d]);
            }
        }
    }
}

/// Every scan ends in exactly one end-of-input token, whose lexeme is empty
/// (it spans no text) and stands at the end of the source.
pub proof fn law_single_end_of_input(s: Seq<char>)
    ensures
        scan(s).tokens.len() >= 1,
        scan(s).tokens.last().kind == TokenType::Eof,
        scan(s).tokens.last().start == s.len(),
        scan(s).tokens.last().end == s.len(),
        forall|k: int|
            0 <= k < scan(s).tokens.len() - 1 ==> (#[trigger] scan(s).tokens[k]).kind
                != TokenType::Eof,
{
    lemma_scan_from_ends(s, 0, 1);
}

proof fn lemma_newlines_split(s: Seq<char>, a: nat, m: nat, b: nat)
    requires
        a <= m <= b <= s.len(),
    ensures
        newlines(s.subrange(a as int, b as int)) == newlines(s.subrange(a as int, m as int))
            + newlines(s.subrange(m as int, b as int)),
    decreases b - m,
{
    if b == m {
        assert(s.subrange(m as int, b as int).len() == 0);
        assert(s.subrange(a as int, b as int) == s.subrange(a as int, m as int));
    } else {
        lemma_newlines_split(s, a, m, (b - 1) as nat);
        lemma_newlines_push(s, a, (b - 1) as nat);
        lemma_newlines_push(s, m, (b - 1) as nat);
    }
}

proof fn lemma_no_newlines(s: Seq<char>, a: nat, b: nat)
    requires
        a <= b <= s.len(),
        forall|k: int| a <= k < b ==> s[k] != '\n',
    ensures
        newlines(s.subrange(a as int, b as int)) == 0,
    decreases b - a,
{
    if b == a {
        assert(s.subrange(a as int, b as int).len() == 0);
    } else {
        lemma_no_newlines(s, a, (b - 1) as nat);
        lemma_newlines_push(s, a, (b - 1) as nat);
    }
}

/// The line after a lexer step is the line before it plus the newlines that
/// the step read.
proof fn lemma_step_lines(s: Seq<char>, i: nat, line: nat)
    requires
        i < s.len(),
    ensures
        line + newlines(s.subrange(i as int, step(s, i, line).next as int)) == step(
            s,
            i,
            line,
        ).next_line,
{
    let st = step(s, i, line);
    lemma_step_bounds(s, i, line);
    let c = s[i as int];
    if c == '"' {
        let n = string_run(s, i + 1);
        lemma_run_len_bound(s, i + 1, |c: char| c != '"');
        lemma_no_newlines(s, i, i + 1);
        lemma_newlines_split(s, i, i + 1, st.next);
        if i + 1 + n < s.len() {
            lemma_no_newlines(s, i + 1 + n, i + 2 + n);
            lemma_newlines_split(s, i + 1, i + 1 + n, i + 2 + n);
        }
    } else if c == '\n' {
        lemma_newlines_push(s, i, i);
        assert(s.subrange(i as int, i as int).len() == 0);
    } else {
        lemma_run_len_bound(s, i + 1, |c: char| crate::chars::is_digit(c));
        lemma_run_len_bound(s, i + 1, |c: char| ident_char(c));
        lemma_run_len_bound(s, i + 2, |c: char| c != '\n');
        assert forall|k: int| i <= k < st.next implies s[k] != '\n' by {
            if k > i {
                if crate::chars::is_digit(c) {
                    assert(crate::chars::is_digit(s[k]));
                } else if c != '/' && crate::chars::starts_word(c) {
                    assert(ident_char(s[k]));
                }
            }
        }
        lemma_no_newlines(s, i, st.next);
    }
}

proof fn lemma_scan_from_lines(s: Seq<char>, i: nat, line: nat)
    requires
        i <= s.len(),
        line == 1 + newlines(s.subrange(0, i as int)),
    ensures
        forall|k: int|
            0 <= k < scan_from(s, i, line).tokens.len() ==> {
                let t = #[trigger] scan_from(s, i, line).tokens[k];
                &&& i <= t.start <= s.len()
                &&& t.line == 1 + newlines(s.subrange(0, t.start as int))
            },
        forall|k: int, l: int|
            0 <= k < l < scan_from(s, i, line).tokens.len() ==> (#[trigger] scan_from(
                s,
                i,
                line,
            ).tokens[k]).start <= (#[trigger] scan_from(s, i, line).tokens[l]).start,
    decreases s.len() - i,
{
    if i < s.len() {
        let st = step(s, i, line);
        lemma_step_bounds(s, i, line);
        lemma_step_lines(s, i, line);
        lemma_newlines_split(s, 0, i, st.next);
        lemma_scan_from_lines(s, st.next, st.next_line);
        let rest = scan_from(s, st.next, st.next_line);
        let all = scan_from(s, i, line);
        assert(all.tokens == opt_seq(st.token) + rest.tokens);
        let d = if st.token is Some { 1int } else { 0int };
        assert forall|k: int| 0 <= k < all.tokens.len() implies {
            let t = #[trigger] all.tokens[k];
            &&& i <= t.start <= s.len()
            &&& t.line == 1 + newlines(s.subrange(0, t.start as int))
        } by {
            if k >= d {
                assert(all.tokens[k] == rest.tokens[k - d]);
            }
        }
        assert forall|k: int, l: int| 0 <= k < l < all.tokens.len() implies (
        #[trigger] all.tokens[k]).start <= (#[trigger] all.tokens[l]).start by {
            assert(all.tokens[l] == rest.tokens[l - d]);
            if k >= d {
                assert(all.tokens[k] == rest.tokens[k - d]);
            }
        }
    }
}

/// Each token's line is one more than the number of newlines before its
/// first character, and lines never decrease along the token sequence.
pub proof fn law_lines_count_newlines(s: Seq<char>)
    ensures
        forall|k: int|
            0 <= k < scan(s).tokens.len() ==> (#[trigger] scan(s).tokens[k]).line == 1
                + newlines(s.subrange(0, scan(s).tokens[k].start as int)),
        forall|k: int, l: int|
            0 <= k < l < scan(s).tokens.len() ==> (#[trigger] scan(s).tokens[k]).line
                <= (#[trigger] scan(s).tokens[l]).line,
{
    assert(s.subrange(0, 0).len() == 0);
    lemma_scan_from_lines(s, 0, 1);
    assert forall|k: int, l: int| 0 <= k < l < scan(s).tokens.len() implies (
    #[trigger] scan(s).tokens[k]).line <= (#[trigger] scan(s).tokens[l]).line by {
        let a = scan(s).tokens[k].start;
        let b = scan(s).tokens[l].start;
        lemma_newlines_split(s, 0, a, b);
    }
}

/// The characters of `s` from `i` on that carry meaning: all of them but
/// blanks, newlines and comments that stand outside string literals.
pub open spec fn significant_from(s: Seq<char>, i: nat) -> Seq<char>
    decreases s.len() - i,
    via significant_from_decreases
{
    if i >= s.len() {
        seq![]
    } else if s[i as int] == '/' && char_at(s, i + 1, '/') {
        significant_from(s, i + 2 + line_run(s, i + 2))
    } else if s[i as int] == '"' {
        let end = i + 2 + string_run(s, i + 1);
        if end <= s.len() {
            s.subrange(i as int, end as int) + significant_from(s, end)
        } else {
            s.subrange(i as int, s.len() as int)
        }
    } else if is_blank(s[i as int]) || s[i as int] == '\n' {
        significant_from(s, i + 1)
    } else {
        seq![s[i as int]] + significant_from(s, i + 1)
    }
}

#[via_fn]
proof fn significant_from_decreases(s: Seq<char>, i: nat) {
    if i < s.len() {
        lemma_run_len_bound(s, i + 2, |c: char| c != '\n');
    }
}

/// The lexemes of `ts`, read from `s` and joined in order.
pub open spec fn spelled(s: Seq<char>, ts: Seq<TokenModel>) -> Seq<char>
    decreases ts.len(),
{
    if ts.len() == 0 {
        seq![]
    } else {
        s.subrange(ts[0].start as int, ts[0].end as int) + spelled(s, ts.drop_first())
    }
}

pub open spec fn is_plain(c: char) -> bool {
    !(c == '/' || c == '"' || is_blank(c) || c == '\n')
}

proof fn lemma_plain_run(s: Seq<char>, a: nat, b: nat)
    requires
        a <= b <= s.len(),
        forall|k: int| a <= k < b ==> is_plain(#[trigger] s[k]),
    ensures
        significant_from(s, a) == s.subrange(a as int, b as int) + significant_from(s, b),
    decreases b - a,
{
    if a == b {
        assert(s.subrange(a as int, b as int) + significant_from(s, b) =~= significant_from(s, b));
    } else {
        assert(is_plain(s[a as int]));
        lemma_plain_run(s, a + 1, b);
        assert(seq![s[a as int]] + (s.subrange((a + 1) as int, b as int) + significant_from(s, b))
            =~= s.subrange(a as int, b as int) + significant_from(s, b));
    }
}

proof fn lemma_spelled_from(s: Seq<char>, i: nat, line: nat)
    requires
        scan_from(s, i, line).errors.len() == 0,
    ensures
        spelled(s, scan_from(s, i, line).tokens) == significant_from(s, i),
    decreases s.len() - i,
{
    let all = scan_from(s, i, line);
    if i >= s.len() {
        assert(all.tokens.drop_first() =~= Seq::<TokenModel>::empty());
        assert(spelled(s, all.tokens.drop_first()) == Seq::<char>::empty());
        assert(s.subrange(s.len() as int, s.len() as int) =~= Seq::<char>::empty());
        assert(spelled(s, all.tokens) =~= significant_from(s, i));
    } else {
        let st = step(s, i, line);
        lemma_step_bounds(s, i, line);
        let rest = scan_from(s, st.next, st.next_line);
        assert(all.errors == opt_seq(st.error) + rest.errors);
        assert(st.error is None);
        assert(rest.errors =~= all.errors);
        lemma_spelled_from(s, st.next, st.next_line);
        assert(all.tokens == opt_seq(st.token) + rest.tokens);
        let c = s[i as int];
        match st.token {
            None => {
                assert(all.tokens =~= rest.tokens);
            },
            Some(m) => {
                assert(all.tokens.drop_first() =~= rest.tokens);
                assert(m.start == i && m.end == st.next);
                if c == '"' {
                } else if c == '/' {
                    assert(s.subrange(i as int, (i + 1) as int) =~= seq![c]);
                } else {
                    lemma_run_len_bound(s, i + 1, |c: char| crate::chars::is_digit(c));
                    lemma_run_len_bound(s, i + 1, |c: char| ident_char(c));
                    assert forall|k: int| i <= k < st.next implies is_plain(#[trigger] s[k]) by {
                        if k > i {
                            if crate::chars::is_digit(c) {
                                assert(crate::chars::is_digit(s[k]));
                            } else if crate::chars::starts_word(c) {
                                assert(ident_char(s[k]));
                            }
                        }
                    }
                    lemma_plain_run(s, i, st.next);
                }
            },
        }
    }
}

/// Where a scan reports no diagnostic, its lexemes joined in order are
/// exactly the significant characters of the source.
pub proof fn law_lexemes_rebuild_source(s: Seq<char>)
    requires
        scan(s).errors.len() == 0,
    ensures
        spelled(s, scan(s).tokens) == significant_from(s, 0),
{
    lemma_spelled_from(s, 0, 1);
}

} // verus!
