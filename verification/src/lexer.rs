//! The scanner: priority-ordered anchored matching over a sequence of lines.
//!
//! Scanning works line by line.  Within a line the registered rules are tried
//! in registration order against the start of the remaining text; the first
//! rule whose pattern matches there supplies the next token, whatever the
//! lengths of later rules' matches.  A position where no rule matches — and,
//! by explicit policy, one where the first matching rule matches the empty
//! string, which could never make progress — stops the scan with a
//! [`ScanError`]; the tokens produced before that point are kept.

use crate::pattern::{pattern_models, Pattern, PatternModel};
use crate::render::{append_padded, append_spaces, dec_str, dec_string, lemma_spaces_add,
    pad_right, spaces};
use crate::token::{token_models, Token, TokenModel};

use vstd::prelude::*;

verus! {

/// The length, in characters, of the anchored match of the regular expression
/// `pattern` against the start of `text`: `None` when the pattern does not
/// match at the very first character (or does not compile), `Some(n)` when its
/// match consumes exactly the first `n` characters of `text`.
///
/// The result depends on the two strings alone.
pub uninterp spec fn rule_match_len(pattern: Seq<char>, text: Seq<char>) -> Option<usize>;

/// Relies on `regex::Regex::new` and `regex::Regex::find`: the pattern is
/// compiled anchored to the start of the haystack (wrapped in a group, so
/// that an alternation cannot escape the anchor), so a reported match is a
/// prefix of `text`, and its character length is a function of `pattern` and
/// `text` alone.  A pattern that does not compile matches nothing.
#[verifier::external_body]
fn match_at_start(pattern: &str, text: &str) -> (r: Option<usize>)
    ensures
        r == rule_match_len(pattern@, text@),
        r matches Some(n) ==> n <= text@.len(),
{
    match regex::Regex::new(&format!("^(?:{})", pattern)) {
        Ok(re) => re.find(text).map(|m| m.as_str().chars().count()),
        Err(_) => None,
    }
}

/// The failure site of a scan: no rule matched (or the first matching rule
/// matched the empty string) at column `col` of line `line`, whose full text
/// is `text`.
#[verifier::ext_equal]
pub struct ScanErrorModel {
    pub line: int,
    pub col: int,
    pub text: Seq<char>,
}

/// A fatal scan error: the 1-based line and column at which no rule matched,
/// together with the text of the offending line, from which a diagnostic can
/// be rendered.
pub struct ScanError {
    pub line: usize,
    pub col: usize,
    pub text: String,
}

impl View for ScanError {
    type V = ScanErrorModel;

    open spec fn view(&self) -> ScanErrorModel {
        ScanErrorModel { line: self.line as int, col: self.col as int, text: self.text@ }
    }
}

/// The diagnostic block for a failure site: the offending line prefixed by
/// its number, a caret aligned under the failing column, and a closing
/// message naming the line and column.  The caret sits right of a run of
/// spaces as wide as the line-number prefix plus the failing column.
pub open spec fn diagnostic_model(e: ScanErrorModel) -> Seq<char> {
    dec_str(e.line) + ": "@ + e.text + "\n"@ + spaces(dec_str(e.line).len() + e.col + 1) + "^\n"@
        + "LexerError: Invalid token at line "@ + dec_str(e.line) + ", col "@ + dec_str(e.col)
        + "\n"@
}

impl ScanError {
    /// Renders the diagnostic for this failure site, reproducible from the
    /// site alone: nothing of the scanner's other state enters it.
    pub fn diagnostic(&self) -> (r: String)
        ensures
            r@ == diagnostic_model(self@),
    {
        let num = dec_string(self.line);
        let num_width: usize = num.as_str().unicode_len();
        let mut out = String::new();
        out.append(num.as_str());
        out.append(": ");
        out.append(self.text.as_str());
        out.append("\n");
        let ghost mid = out@;
        append_spaces(&mut out, num_width);
        out.append(" ");
        append_spaces(&mut out, self.col);
        proof {
            reveal_strlit(" ");
            assert(spaces(0) =~= Seq::<char>::empty());
            assert(spaces(1) =~= seq![' ']);
            assert(" "@ =~= spaces(1));
            lemma_spaces_add(num_width as int, 1);
            lemma_spaces_add(num_width as int + 1, self.col as int);
            assert(((mid + spaces(num_width as int)) + spaces(1)) + spaces(self.col as int) =~= mid
                + spaces(num_width as int + self.col as int + 1));
        }
        out.append("^\n");
        out.append("LexerError: Invalid token at line ");
        out.append(num.as_str());
        out.append(", col ");
        let colnum = dec_string(self.col);
        out.append(colnum.as_str());
        out.append("\n");
        proof {
            assert(out@ =~= diagnostic_model(self@));
        }
        out
    }
}

/// What scanning one line yields: the tokens of the line in left-to-right
/// order and, if the line could not be tokenized completely, the column at
/// which the scan stopped.
#[verifier::ext_equal]
pub struct LineOutcome {
    pub tokens: Seq<TokenModel>,
    pub err_col: Option<int>,
}

/// What scanning a whole input yields: all tokens in line-then-column order
/// and, if some line could not be tokenized completely, the failure site.
/// On failure the tokens are exactly those produced before that site.
#[verifier::ext_equal]
pub struct ScanOutcome {
    pub tokens: Seq<TokenModel>,
    pub error: Option<ScanErrorModel>,
}

/// The index of the first rule at or after position `k` whose pattern matches
/// at the start of `text`, if any.  Registration order is the only tie-break:
/// match lengths play no part here.
pub open spec fn first_rule_from(rules: Seq<PatternModel>, text: Seq<char>, k: int) -> Option<
    int,
>
    decreases rules.len() - k,
{
    if k < 0 || k >= rules.len() {
        None
    } else if rule_match_len(rules[k].pattern, text) is Some {
        Some(k)
    } else {
        first_rule_from(rules, text, k + 1)
    }
}

/// Scanning the remaining text `rest` of line `line`, whose next character
/// sits at column `col`: while text remains, the first matching rule emits a
/// token and the cursor advances by the match's length.  No matching rule, or
/// a first matching rule whose match is empty, stops the line at the current
/// column.
pub open spec fn scan_line_from(
    rules: Seq<PatternModel>,
    rest: Seq<char>,
    line: int,
    col: int,
) -> LineOutcome
    decreases rest.len(),
{
    if rest.len() == 0 {
        LineOutcome { tokens: Seq::empty(), err_col: None }
    } else {
        match first_rule_from(rules, rest, 0) {
            None => LineOutcome { tokens: Seq::empty(), err_col: Some(col) },
            Some(i) => {
                let n = match rule_match_len(rules[i].pattern, rest) {
                    Some(n) => n as int,
                    None => 0,
                };
                if n < 1 || n > rest.len() {
                    LineOutcome { tokens: Seq::empty(), err_col: Some(col) }
                } else {
                    let tok = TokenModel {
                        name: rules[i].name,
                        content: rest.take(n),
                        line: line,
                        col: col,
                    };
                    let tail = scan_line_from(rules, rest.skip(n), line, col + n);
                    LineOutcome { tokens: seq![tok] + tail.tokens, err_col: tail.err_col }
                }
            },
        }
    }
}

/// Scanning the lines at index `i` and beyond, each tokenized independently
/// starting at column 1, with 1-based line numbers.  The first line that
/// fails ends the scan; its tokens are kept and no later line is processed.
pub open spec fn scan_lines_from(
    rules: Seq<PatternModel>,
    lines: Seq<Seq<char>>,
    i: int,
) -> ScanOutcome
    decreases lines.len() - i,
{
    if i < 0 || i >= lines.len() {
        ScanOutcome { tokens: Seq::empty(), error: None }
    } else {
        let lo = scan_line_from(rules, lines[i], i + 1, 1);
        match lo.err_col {
            Some(c) => ScanOutcome {
                tokens: lo.tokens,
                error: Some(ScanErrorModel { line: i + 1, col: c, text: lines[i] }),
            },
            None => {
                let rest = scan_lines_from(rules, lines, i + 1);
                ScanOutcome { tokens: lo.tokens + rest.tokens, error: rest.error }
            },
        }
    }
}

/// The full scan of `lines` under `rules`: the token sequence and, if some
/// position could not be matched, the first such site.  This function is the
/// specification that [`Lexer::tokenize`] is proved against; for fixed rules
/// and input it denotes one fixed outcome.
pub open spec fn scan_spec(rules: Seq<PatternModel>, lines: Seq<Seq<char>>) -> ScanOutcome {
    scan_lines_from(rules, lines, 0)
}

/// The models of a sequence of source lines.
pub open spec fn line_models(lines: Seq<String>) -> Seq<Seq<char>> {
    lines.map_values(|l: String| l@)
}

/// The widths of the line-number, column-number and content fields of a
/// token table: each is the maximum, over all tokens, of the rendered
/// field's character length (0 for no tokens at all).
pub open spec fn field_widths(toks: Seq<TokenModel>) -> (int, int, int)
    decreases toks.len(),
{
    if toks.len() == 0 {
        (0, 0, 0)
    } else {
        let rest = field_widths(toks.drop_last());
        let t = toks.last();
        (
            if rest.0 >= dec_str(t.line).len() {
                rest.0
            } else {
                dec_str(t.line).len() as int
            },
            if rest.1 >= dec_str(t.col).len() {
                rest.1
            } else {
                dec_str(t.col).len() as int
            },
            if rest.2 >= t.content.len() {
                rest.2
            } else {
                t.content.len() as int
            },
        )
    }
}

/// One row of the token table: the token's line, column, content and name,
/// the first three left-aligned to the given widths.
pub open spec fn token_row(t: TokenModel, lw: int, cw: int, tw: int) -> Seq<char> {
    pad_right(dec_str(t.line), lw) + ":"@ + pad_right(dec_str(t.col), cw) + " "@ + pad_right(
        t.content,
        tw,
    ) + " ("@ + t.name + ")\n"@
}

/// The rows for the tokens at position `i` and beyond, under fixed widths.
pub open spec fn token_table_from(
    toks: Seq<TokenModel>,
    i: int,
    lw: int,
    cw: int,
    tw: int,
) -> Seq<char>
    decreases toks.len() - i,
{
    if i < 0 || i >= toks.len() {
        Seq::empty()
    } else {
        token_row(toks[i], lw, cw, tw) + token_table_from(toks, i + 1, lw, cw, tw)
    }
}

/// The table for a token sequence: one row per token, in order, each field
/// aligned to the widest value of that field over the whole sequence.
pub open spec fn token_table(toks: Seq<TokenModel>) -> Seq<char> {
    let w = field_widths(toks);
    token_table_from(toks, 0, w.0, w.1, w.2)
}

/// The concatenation of the contents of a sequence of tokens, in order.
pub open spec fn concat_contents(toks: Seq<TokenModel>) -> Seq<char>
    decreases toks.len(),
{
    if toks.len() == 0 {
        Seq::empty()
    } else {
        toks[0].content + concat_contents(toks.drop_first())
    }
}

/// The concatenation of a sequence of lines, in order.
pub open spec fn concat_lines(lines: Seq<Seq<char>>) -> Seq<char>
    decreases lines.len(),
{
    if lines.len() == 0 {
        Seq::empty()
    } else {
        lines[0] + concat_lines(lines.drop_first())
    }
}

proof fn lemma_first_rule_skip_nonmatching(rules: Seq<PatternModel>, text: Seq<char>, k: int)
    requires
        0 <= k <= rules.len(),
        forall|j: int| 0 <= j < k ==> #[trigger] rule_match_len(rules[j].pattern, text) is None,
    ensures
        first_rule_from(rules, text, 0) == first_rule_from(rules, text, k),
    decreases k,
{
    if k > 0 {
        lemma_first_rule_skip_nonmatching(rules, text, k - 1);
        assert(first_rule_from(rules, text, k - 1) == first_rule_from(rules, text, k));
    }
}

/// Priority tie-break: when the rule at position `k` matches at the cursor
/// and no earlier rule does, that rule supplies the next token — its name and
/// its own match length — whatever any later rule would have matched there.
pub proof fn lemma_priority_tie_break(
    rules: Seq<PatternModel>,
    text: Seq<char>,
    line: int,
    col: int,
    k: int,
    n: usize,
)
    requires
        text.len() > 0,
        0 <= k < rules.len(),
        rule_match_len(rules[k].pattern, text) == Some(n),
        1 <= n <= text.len(),
        forall|j: int| 0 <= j < k ==> #[trigger] rule_match_len(rules[j].pattern, text) is None,
    ensures
        scan_line_from(rules, text, line, col).tokens.len() >= 1,
        scan_line_from(rules, text, line, col).tokens[0] == (TokenModel {
            name: rules[k].name,
            content: text.take(n as int),
            line: line,
            col: col,
        }),
{
    lemma_first_rule_skip_nonmatching(rules, text, k);
    assert(first_rule_from(rules, text, k) == Some(k));
}

/// Positions within one line: every token of the line carries that line
/// number and a non-empty content; the first token sits at the starting
/// column; and each later token's column is the previous token's column plus
/// the previous token's content length (column monotonicity).
pub proof fn lemma_line_token_positions(
    rules: Seq<PatternModel>,
    text: Seq<char>,
    line: int,
    col: int,
)
    ensures
        ({
            let toks = scan_line_from(rules, text, line, col).tokens;
            &&& forall|j: int| 0 <= j < toks.len() ==> (#[trigger] toks[j]).line == line
            &&& forall|j: int| 0 <= j < toks.len() ==> (#[trigger] toks[j]).content.len() >= 1
            &&& (toks.len() > 0 ==> toks[0].col == col)
            &&& forall|j: int|
                0 < j < toks.len() ==> (#[trigger] toks[j]).col == toks[j - 1].col + toks[j
                    - 1].content.len()
        }),
    decreases text.len(),
{
    let toks = scan_line_from(rules, text, line, col).tokens;
    if text.len() > 0 {
        match first_rule_from(rules, text, 0) {
            None => {},
            Some(i) => {
                let n = match rule_match_len(rules[i].pattern, text) {
                    Some(n) => n as int,
                    None => 0,
                };
                if 1 <= n <= text.len() {
                    lemma_line_token_positions(rules, text.skip(n), line, col + n);
                    let tail = scan_line_from(rules, text.skip(n), line, col + n).tokens;
                    assert(forall|j: int| 0 < j < toks.len() ==> toks[j] == tail[j - 1]);
                    assert(toks[0].content.len() == n);
                }
            },
        }
    }
}

/// Line reset: in a full scan, every token that opens a new line — the very
/// first token, or any token whose line differs from its predecessor's —
/// sits at column 1, whatever column the previous line ended at.
pub proof fn lemma_line_reset(rules: Seq<PatternModel>, lines: Seq<Seq<char>>)
    ensures
        ({
            let toks = scan_spec(rules, lines).tokens;
            forall|j: int|
                0 <= j < toks.len() && (j == 0 || toks[j - 1].line != toks[j].line) ==> (
                #[trigger] toks[j]).col == 1
        }),
{
    lemma_line_reset_from(rules, lines, 0);
}

proof fn lemma_line_reset_from(rules: Seq<PatternModel>, lines: Seq<Seq<char>>, i: int)
    requires
        0 <= i,
    ensures
        ({
            let toks = scan_lines_from(rules, lines, i).tokens;
            &&& forall|j: int| 0 <= j < toks.len() ==> (#[trigger] toks[j]).line > i
            &&& forall|j: int|
                0 <= j < toks.len() && (j == 0 || toks[j - 1].line != toks[j].line) ==> (
                #[trigger] toks[j]).col == 1
        }),
    decreases lines.len() - i,
{
    let toks = scan_lines_from(rules, lines, i).tokens;
    if 0 <= i < lines.len() {
        let lo = scan_line_from(rules, lines[i], i + 1, 1);
        lemma_line_token_positions(rules, lines[i], i + 1, 1);
        match lo.err_col {
            Some(c) => {
                assert(toks == lo.tokens);
            },
            None => {
                lemma_line_reset_from(rules, lines, i + 1);
                let next = scan_lines_from(rules, lines, i + 1).tokens;
                assert(toks == lo.tokens + next);
                assert(forall|j: int|
                    lo.tokens.len() <= j < toks.len() ==> toks[j] == next[j - lo.tokens.len()]);
                assert(forall|j: int| 0 <= j < lo.tokens.len() ==> toks[j] == lo.tokens[j]);
                assert(forall|j: int|
                    0 <= j < toks.len() && (j == 0 || toks[j - 1].line != toks[j].line) ==> (
                    #[trigger] toks[j]).col == 1) by {
                    assert forall|j: int|
                        0 <= j < toks.len() && (j == 0 || toks[j - 1].line != toks[j].line)
                        implies (#[trigger] toks[j]).col == 1 by {
                        if j < lo.tokens.len() {
                            assert(toks[j].line == i + 1);
                            if j > 0 {
                                assert(toks[j - 1].line == i + 1);
                            }
                            assert(j == 0);
                        } else {
                            let jj = j - lo.tokens.len();
                            assert(toks[j] == next[jj]);
                            if jj > 0 {
                                assert(toks[j - 1] == next[jj - 1]);
                            } else if j > 0 {
                                assert(toks[j - 1].line == i + 1);
                                assert(next[0].line > i + 1);
                            }
                        }
                    }
                }
            },
        }
    }
}

proof fn lemma_concat_contents_append(a: Seq<TokenModel>, b: Seq<TokenModel>)
    ensures
        concat_contents(a + b) == concat_contents(a) + concat_contents(b),
    decreases a.len(),
{
    if a.len() == 0 {
        assert(a + b =~= b);
        assert(concat_contents(a) + concat_contents(b) =~= concat_contents(b));
    } else {
        assert((a + b).drop_first() =~= a.drop_first() + b);
        lemma_concat_contents_append(a.drop_first(), b);
        assert((a + b)[0] == a[0]);
        assert(a[0].content + (concat_contents(a.drop_first()) + concat_contents(b)) =~= (
        a[0].content + concat_contents(a.drop_first())) + concat_contents(b));
    }
}

/// Round trip within one line: when a line tokenizes completely, the
/// concatenation of its tokens' contents, in order, is exactly the line —
/// no characters are dropped or duplicated.
pub proof fn lemma_round_trip_line(
    rules: Seq<PatternModel>,
    text: Seq<char>,
    line: int,
    col: int,
)
    requires
        scan_line_from(rules, text, line, col).err_col is None,
    ensures
        concat_contents(scan_line_from(rules, text, line, col).tokens) == text,
    decreases text.len(),
{
    let toks = scan_line_from(rules, text, line, col).tokens;
    if text.len() == 0 {
        assert(concat_contents(toks) =~= text);
    } else {
        match first_rule_from(rules, text, 0) {
            None => {},
            Some(i) => {
                let n = match rule_match_len(rules[i].pattern, text) {
                    Some(n) => n as int,
                    None => 0,
                };
                if 1 <= n <= text.len() {
                    lemma_round_trip_line(rules, text.skip(n), line, col + n);
                    let tail = scan_line_from(rules, text.skip(n), line, col + n).tokens;
                    assert(toks.drop_first() =~= tail);
                    assert(concat_contents(toks) == text.take(n) + text.skip(n));
                    assert(text.take(n) + text.skip(n) =~= text);
                }
            },
        }
    }
}

/// Round trip over the whole input: when every line tokenizes completely,
/// the concatenation of all tokens' contents, in order, is exactly the
/// concatenation of all input lines.
pub proof fn lemma_round_trip(rules: Seq<PatternModel>, lines: Seq<Seq<char>>)
    requires
        scan_spec(rules, lines).error is None,
    ensures
        concat_contents(scan_spec(rules, lines).tokens) == concat_lines(lines),
{
    lemma_round_trip_from(rules, lines, 0);
    assert(lines.skip(0) =~= lines);
}

proof fn lemma_round_trip_from(rules: Seq<PatternModel>, lines: Seq<Seq<char>>, i: int)
    requires
        0 <= i <= lines.len(),
        scan_lines_from(rules, lines, i).error is None,
    ensures
        concat_contents(scan_lines_from(rules, lines, i).tokens) == concat_lines(lines.skip(i)),
    decreases lines.len() - i,
{
    if i == lines.len() {
        assert(lines.skip(i) =~= Seq::<Seq<char>>::empty());
        assert(concat_contents(scan_lines_from(rules, lines, i).tokens) =~= concat_lines(
            lines.skip(i),
        ));
    } else {
        let lo = scan_line_from(rules, lines[i], i + 1, 1);
        let next = scan_lines_from(rules, lines, i + 1);
        lemma_round_trip_line(rules, lines[i], i + 1, 1);
        lemma_round_trip_from(rules, lines, i + 1);
        lemma_concat_contents_append(lo.tokens, next.tokens);
        assert(lines.skip(i).drop_first() =~= lines.skip(i + 1));
        assert(lines.skip(i)[0] == lines[i]);
        assert(concat_lines(lines.skip(i)) == lines[i] + concat_lines(lines.skip(i + 1)));
    }
}

/// Empty input: zero lines yield zero tokens and no error, whatever the
/// rules — even none at all.
pub proof fn lemma_empty_input(rules: Seq<PatternModel>)
    ensures
        scan_spec(rules, Seq::empty()).tokens == Seq::<TokenModel>::empty(),
        scan_spec(rules, Seq::empty()).error is None,
{
}

/// The scanner: an ordered list of rules and the tokens accumulated so far.
///
/// Rules are registered once, before scanning; scanning appends to the token
/// list and never touches the rules.  Each value is fully self-contained, so
/// independent scanners never interfere.
pub struct Lexer {
    patterns: Vec<Pattern>,
    tokens: Vec<Token>,
}

impl Lexer {
    /// The registered rules, in registration order.
    pub closed spec fn rules(&self) -> Seq<PatternModel> {
        pattern_models(self.patterns@)
    }

    /// The tokens accumulated so far, in the order they were produced.
    pub closed spec fn toks(&self) -> Seq<TokenModel> {
        token_models(self.tokens@)
    }

    /// A scanner with no rules and no tokens.
    pub fn new() -> (r: Self)
        ensures
            r.rules() == Seq::<PatternModel>::empty(),
            r.toks() == Seq::<TokenModel>::empty(),
    {
        let r = Self { patterns: Vec::new(), tokens: Vec::new() };
        proof {
            assert(r.rules() =~= Seq::<PatternModel>::empty());
            assert(r.toks() =~= Seq::<TokenModel>::empty());
        }
        r
    }

    /// Appends a rule to the end of the ordered rule list.  The pattern
    /// source is not validated here: a pattern that never compiles simply
    /// never matches.
    pub fn add_pattern(&mut self, name: &str, pattern: &str)
        ensures
            final(self).rules() == old(self).rules().push(
                PatternModel { name: name@, pattern: pattern@ },
            ),
            final(self).toks() == old(self).toks(),
    {
        self.patterns.push(Pattern::new(String::from_str(name), String::from_str(pattern)));
        proof {
            assert(self.rules() =~= old(self).rules().push(
                PatternModel { name: name@, pattern: pattern@ },
            ));
        }
    }

    /// Tokenizes one line of text, numbered `line_num`, appending its tokens
    /// to the accumulated token list.  Columns within the line start at 1 and
    /// advance by the character length of each match.  `Err` reports the
    /// first column at which no rule matched (or the first matching rule
    /// matched the empty string), together with the line's text; the tokens
    /// produced up to that column are kept.
    pub fn tokenize_line(&mut self, line: &str, line_num: usize) -> (r: Result<(), ScanError>)
        requires
            line@.len() < usize::MAX,
        ensures
            final(self).rules() == old(self).rules(),
            ({
                let lo = scan_line_from(old(self).rules(), line@, line_num as int, 1);
                &&& final(self).toks() == old(self).toks() + lo.tokens
                &&& (r is Ok <==> lo.err_col is None)
                &&& (r matches Err(e) ==> lo.err_col == Some(e@.col) && e@.line == line_num as int
                    && e@.text == line@)
            }),
    {
        let ghost rules = self.rules();
        let ghost full = scan_line_from(rules, line@, line_num as int, 1);
        let mut rest: &str = line;
        let mut col: usize = 1;
        let ghost mut produced: Seq<TokenModel> = Seq::empty();

        loop
            invariant
                line@.len() < usize::MAX,
                rules == old(self).rules(),
                full == scan_line_from(rules, line@, line_num as int, 1),
                self.rules() == rules,
                self.toks() == old(self).toks() + produced,
                rest@.len() <= line@.len(),
                col as int == 1 + line@.len() - rest@.len(),
                ({
                    let cur = scan_line_from(rules, rest@, line_num as int, col as int);
                    full.tokens == produced + cur.tokens && full.err_col == cur.err_col
                }),
            decreases rest@.len(),
        {
            let ghost rtext = rest@;
            let ghost cur = scan_line_from(rules, rtext, line_num as int, col as int);
            if rest.is_empty() {
                proof {
                    assert(full.tokens =~= produced);
                }
                return Ok(());
            }

            let mut k: usize = 0;
            let mut m: Option<(usize, usize)> = None;
            while k < self.patterns.len()
                invariant
                    self.rules() == rules,
                    k <= self.patterns.len(),
                    rules.len() == self.patterns.len(),
                    m is None ==> first_rule_from(rules, rtext, 0) == first_rule_from(
                        rules,
                        rtext,
                        k as int,
                    ),
                    m is Some ==> k == self.patterns.len(),
                    m matches Some(f) ==> f.0 < rules.len() && first_rule_from(rules, rtext, 0)
                        == Some(f.0 as int) && rule_match_len(rules[f.0 as int].pattern, rtext)
                        == Some(f.1) && f.1 <= rtext.len(),
                    rest@ == rtext,
                decreases self.patterns.len() - k,
            {
                proof {
                    assert(rules[k as int] == self.patterns@[k as int]@);
                }
                let mr = match_at_start(self.patterns[k].pattern.as_str(), rest);
                match mr {
                    Some(n) => {
                        proof {
                            assert(first_rule_from(rules, rtext, k as int) == Some(k as int));
                        }
                        m = Some((k, n));
                        k = self.patterns.len();
                    },
                    None => {
                        proof {
                            assert(first_rule_from(rules, rtext, k as int) == first_rule_from(
                                rules,
                                rtext,
                                k as int + 1,
                            ));
                        }
                        k = k + 1;
                    },
                }
            }

            let (kf, matched_len) = match m {
                Some(f) => f,
                None => {
                    // No rule matched at this column: the scan stops here.
                    proof {
                        assert(first_rule_from(rules, rtext, k as int) is None);
                        assert(cur.err_col == Some(col as int));
                        assert(full.tokens =~= produced);
                    }
                    let e = ScanError { line: line_num, col: col, text: String::from_str(line) };
                    return Err(e);
                },
            };
            if matched_len == 0 {
                // The first rule that matched here matched the empty string,
                // which could never make progress: by policy the scan stops
                // exactly as if no rule had matched.
                proof {
                    assert(cur.err_col == Some(col as int));
                    assert(full.tokens =~= produced);
                }
                let e = ScanError { line: line_num, col: col, text: String::from_str(line) };
                return Err(e);
            }
            let n = matched_len;
            let k = kf;
            let ghost ki = k as int;
            let ghost col0 = col as int;
            let rest_len = rest.unicode_len();
            let content = String::from_str(rest.substring_char(0, n));
            let name = self.patterns[k].name.clone();
            proof {
                assert(rules[ki] == self.patterns@[ki]@);
                assert(content@ =~= rtext.take(n as int));
            }
            let tok = Token::new(name, content, line_num, col);
            let ghost tokm = tok@;
            let ghost pre_tokens = self.tokens@;
            self.tokens.push(tok);
            let new_rest = rest.substring_char(n, rest_len);
            rest = new_rest;
            col = col + n;
            proof {
                assert(rest@ =~= rtext.skip(n as int));
                assert(tokm == (TokenModel {
                    name: rules[ki].name,
                    content: rtext.take(n as int),
                    line: line_num as int,
                    col: col0,
                }));
                let tail = scan_line_from(rules, rtext.skip(n as int), line_num as int, col0 + n);
                assert(cur == (LineOutcome {
                    tokens: seq![tokm] + tail.tokens,
                    err_col: tail.err_col,
                }));
                assert(token_models(self.tokens@) =~= token_models(pre_tokens).push(tokm));
                assert(self.toks() =~= old(self).toks() + (produced + seq![tokm]));
                assert(produced + (seq![tokm] + tail.tokens) =~= (produced + seq![tokm])
                    + tail.tokens);
                produced = produced + seq![tokm];
            }
        }
    }

    /// Tokenizes a sequence of source lines, appending the tokens of each
    /// fully tokenized line, in line-then-column order, to the accumulated
    /// token list.  Line numbers are 1-based positions in `lines`; every line
    /// starts over at column 1.  The first line that cannot be tokenized
    /// completely stops the scan: `Err` carries its failure site, the tokens
    /// produced before it are kept, and no later line is touched.  Zero lines
    /// yield zero tokens and no error; with no rules registered, an empty
    /// input still scans to nothing and any non-empty line fails at its
    /// first column.
    pub fn tokenize(&mut self, lines: &Vec<String>) -> (r: Result<(), ScanError>)
        requires
            forall|j: int| 0 <= j < lines@.len() ==> #[trigger] lines@[j]@.len() < usize::MAX,
        ensures
            final(self).rules() == old(self).rules(),
            ({
                let out = scan_spec(old(self).rules(), line_models(lines@));
                &&& final(self).toks() == old(self).toks() + out.tokens
                &&& (r is Ok <==> out.error is None)
                &&& (r matches Err(e) ==> out.error == Some(e@))
            }),
    {
        let ghost rules = self.rules();
        let ghost lv = line_models(lines@);
        let ghost all = scan_spec(rules, lv);
        let ghost mut done: Seq<TokenModel> = Seq::empty();
        let mut i: usize = 0;
        while i < lines.len()
            invariant
                forall|j: int| 0 <= j < lines@.len() ==> #[trigger] lines@[j]@.len() < usize::MAX,
                i <= lines.len(),
                rules == old(self).rules(),
                lv == line_models(lines@),
                lv.len() == lines@.len(),
                all == scan_spec(rules, lv),
                self.rules() == rules,
                self.toks() == old(self).toks() + done,
                ({
                    let rem = scan_lines_from(rules, lv, i as int);
                    all.tokens == done + rem.tokens && all.error == rem.error
                }),
            decreases lines@.len() - i,
        {
            proof {
                assert(lv[i as int] == lines@[i as int]@);
            }
            let ghost rem = scan_lines_from(rules, lv, i as int);
            let ghost lo = scan_line_from(rules, lv[i as int], i as int + 1, 1);
            let line = &lines[i];
            let res = self.tokenize_line(line.as_str(), i + 1);
            match res {
                Ok(()) => {
                    proof {
                        let next = scan_lines_from(rules, lv, i as int + 1);
                        assert(rem == (ScanOutcome {
                            tokens: lo.tokens + next.tokens,
                            error: next.error,
                        }));
                        assert(done + (lo.tokens + next.tokens) =~= (done + lo.tokens)
                            + next.tokens);
                        assert(old(self).toks() + (done + lo.tokens) =~= (old(self).toks() + done)
                            + lo.tokens);
                        done = done + lo.tokens;
                    }
                    i = i + 1;
                },
                Err(e) => {
                    proof {
                        assert(e@ =~= (ScanErrorModel {
                            line: i as int + 1,
                            col: e@.col,
                            text: lv[i as int],
                        }));
                        assert(rem == (ScanOutcome {
                            tokens: lo.tokens,
                            error: Some(e@),
                        }));
                        assert(old(self).toks() + (done + lo.tokens) =~= (old(self).toks() + done)
                            + lo.tokens);
                    }
                    return Err(e);
                },
            }
        }
        proof {
            assert(all.tokens =~= done);
        }
        Ok(())
    }

    /// Renders the accumulated tokens as an aligned table, one row per
    /// token: `<line>:<col> <content> (<name>)`, with the line, column and
    /// content fields left-aligned to the widest value of each field over
    /// the whole list.
    pub fn format_tokens(&self) -> (r: String)
        ensures
            r@ == token_table(self.toks()),
    {
        let ghost toks = self.toks();
        let mut lw: usize = 0;
        let mut cw: usize = 0;
        let mut tw: usize = 0;
        let mut j: usize = 0;
        proof {
            assert(toks.take(0) =~= Seq::<TokenModel>::empty());
        }
        while j < self.tokens.len()
            invariant
                j <= self.tokens.len(),
                toks == self.toks(),
                toks.len() == self.tokens@.len(),
                field_widths(toks.take(j as int)) == (lw as int, cw as int, tw as int),
            decreases self.tokens@.len() - j,
        {
            let t = &self.tokens[j];
            let lnum = dec_string(t.line);
            let ll: usize = lnum.as_str().unicode_len();
            if ll > lw {
                lw = ll;
            }
            let cnum = dec_string(t.col);
            let cl: usize = cnum.as_str().unicode_len();
            if cl > cw {
                cw = cl;
            }
            let tl: usize = t.content.as_str().unicode_len();
            if tl > tw {
                tw = tl;
            }
            proof {
                assert(toks[j as int] == self.tokens@[j as int]@);
                assert(toks.take(j as int + 1).drop_last() =~= toks.take(j as int));
                assert(toks.take(j as int + 1).last() == toks[j as int]);
            }
            j = j + 1;
        }
        proof {
            assert(toks.take(toks.len() as int) =~= toks);
        }
        let mut out = String::new();
        let mut i: usize = 0;
        proof {
            assert(out@ + token_table_from(toks, 0, lw as int, cw as int, tw as int)
                =~= token_table_from(toks, 0, lw as int, cw as int, tw as int));
        }
        while i < self.tokens.len()
            invariant
                i <= self.tokens.len(),
                toks == self.toks(),
                toks.len() == self.tokens@.len(),
                token_table_from(toks, 0, lw as int, cw as int, tw as int) == out@
                    + token_table_from(toks, i as int, lw as int, cw as int, tw as int),
            decreases self.tokens@.len() - i,
        {
            let ghost pre = out@;
            let t = &self.tokens[i];
            let lnum = dec_string(t.line);
            append_padded(&mut out, lnum.as_str(), lw);
            out.append(":");
            let cnum = dec_string(t.col);
            append_padded(&mut out, cnum.as_str(), cw);
            out.append(" ");
            append_padded(&mut out, t.content.as_str(), tw);
            out.append(" (");
            out.append(t.name.as_str());
            out.append(")\n");
            proof {
                assert(toks[i as int] == self.tokens@[i as int]@);
                assert(out@ =~= pre + token_row(toks[i as int], lw as int, cw as int, tw as int));
                assert(pre + (token_row(toks[i as int], lw as int, cw as int, tw as int)
                    + token_table_from(toks, i as int + 1, lw as int, cw as int, tw as int)) =~= (
                pre + token_row(toks[i as int], lw as int, cw as int, tw as int))
                    + token_table_from(toks, i as int + 1, lw as int, cw as int, tw as int));
            }
            i = i + 1;
        }
        out
    }

    /// The tokens accumulated by the scans performed so far; on a scan that
    /// failed, exactly those produced before the failure site.
    pub fn tokens(&self) -> (r: &Vec<Token>)
        ensures
            token_models(r@) == self.toks(),
    {
        &self.tokens
    }
}

} // verus!
