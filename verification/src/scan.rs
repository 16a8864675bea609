//! Mathematical model of the address grammar: pure scanners over a
//! `Seq<char>` and a cursor.  Each production either yields the position
//! just past what it consumed, reports the deepest position at which no
//! alternative could continue, or reports that comment nesting passed the
//! depth cap.  The executable engine is proved to return exactly what
//! these functions say.

use vstd::prelude::*;

use crate::chars::is_atext_char;
use crate::chars::is_ctext_char;
use crate::chars::is_qtext_char;
use crate::chars::is_quotable;
use crate::chars::is_wsp_char;

verus! {

/// Deepest comment nesting the matcher accepts; one more open
/// parenthesis fails with the dedicated depth error.
pub const MAX_COMMENT_DEPTH: usize = 256;

/// Result of one scanner: the cursor after the consumed text, a grammar
/// mismatch at a position, or comment nesting past the cap at a position.
pub enum Scan {
    Done(int),
    Fail(int),
    Deep(int),
}

/// Greedy `CFWS` scanner (folding whitespace and nested comments), with
/// the comment interior folded in: `depth` is the number of open
/// parentheses.  At depth 0 it stops, without failing, at the first
/// character that cannot extend the run; a bare CRLF is consumed only
/// when followed by whitespace, or as the very last material before the
/// end of the input.  Inside a comment (depth > 0) the input must reach
/// the matching parenthesis or the scan fails.
pub open spec fn cfws_scan(s: Seq<char>, i: int, depth: int) -> Scan
    decreases s.len() - i,
{
    if i < 0 || i >= s.len() {
        if depth == 0 {
            Scan::Done(i)
        } else {
            Scan::Fail(i)
        }
    } else if depth == 0 {
        if is_wsp_char(s[i]) {
            cfws_scan(s, i + 1, 0)
        } else if s[i] == '\r' {
            if i + 1 < s.len() && s[i + 1] == '\n' {
                if i + 2 == s.len() {
                    Scan::Done(i + 2)
                } else if is_wsp_char(s[i + 2]) {
                    cfws_scan(s, i + 3, 0)
                } else {
                    Scan::Done(i)
                }
            } else {
                Scan::Done(i)
            }
        } else if s[i] == '(' {
            cfws_scan(s, i + 1, 1)
        } else {
            Scan::Done(i)
        }
    } else {
        if s[i] == ')' {
            cfws_scan(s, i + 1, depth - 1)
        } else if s[i] == '(' {
            if depth >= MAX_COMMENT_DEPTH {
                Scan::Deep(i)
            } else {
                cfws_scan(s, i + 1, depth + 1)
            }
        } else if s[i] == '\\' {
            if i + 1 < s.len() && is_quotable(s[i + 1]) {
                cfws_scan(s, i + 2, depth)
            } else {
                Scan::Fail(i)
            }
        } else if is_ctext_char(s[i]) {
            cfws_scan(s, i + 1, depth)
        } else {
            Scan::Fail(i)
        }
    }
}

/// End of the maximal `atext` run starting at `i`.
pub open spec fn atext_run(s: Seq<char>, i: int) -> int
    decreases s.len() - i,
{
    if 0 <= i && i < s.len() && is_atext_char(s[i]) {
        atext_run(s, i + 1)
    } else {
        i
    }
}

/// End of a `dot-atom-text` whose first `atext` character stands just
/// before `i`: consumes further `atext`, and a dot only when another
/// `atext` character follows it (so no empty label and no trailing dot).
pub open spec fn datext_end(s: Seq<char>, i: int) -> int
    decreases s.len() - i,
{
    if 0 <= i && i < s.len() && is_atext_char(s[i]) {
        datext_end(s, i + 1)
    } else if 0 <= i && i + 1 < s.len() && s[i] == '.' && is_atext_char(s[i + 1]) {
        datext_end(s, i + 2)
    } else {
        i
    }
}

/// Interior of a `quoted-string`, entered just after the opening quote:
/// `qtext`, whitespace, folds, and `quoted-pair` escapes up to the
/// closing quote, whose position plus one is the result.
pub open spec fn quoted_scan(s: Seq<char>, i: int) -> Scan
    decreases s.len() - i,
{
    if i < 0 || i >= s.len() {
        Scan::Fail(i)
    } else if s[i] == '"' {
        Scan::Done(i + 1)
    } else if s[i] == '\\' {
        if i + 1 < s.len() && is_quotable(s[i + 1]) {
            quoted_scan(s, i + 2)
        } else {
            Scan::Fail(i)
        }
    } else if is_qtext_char(s[i]) || is_wsp_char(s[i]) {
        quoted_scan(s, i + 1)
    } else if s[i] == '\r' {
        if i + 2 < s.len() && s[i + 1] == '\n' && is_wsp_char(s[i + 2]) {
            quoted_scan(s, i + 3)
        } else {
            Scan::Fail(i)
        }
    } else {
        Scan::Fail(i)
    }
}

/// The production a mismatch was trying to satisfy when it gave up.
#[derive(Clone, Copy, Debug, PartialEq, Eq, Structural)]
pub enum Expected {
    CommentText,
    LocalPart,
    AtSign,
    DomainText,
    EndOfInput,
}

/// What matching a whole candidate address yields: on success the spans
/// of the `local-part` and of the `domain` (`[ls, le)` and `[ds, de)`),
/// otherwise the deepest mismatch or the depth-cap failure.
pub enum Outcome {
    Parsed { ls: int, le: int, ds: int, de: int },
    NoParse { at: int, what: Expected },
    DepthLimit { at: int },
}

pub proof fn lemma_cfws_bounds(s: Seq<char>, i: int, depth: int)
    requires
        0 <= i <= s.len(),
    ensures
        cfws_scan(s, i, depth) matches Scan::Done(p) ==> i <= p <= s.len(),
        cfws_scan(s, i, depth) matches Scan::Fail(p) ==> i <= p <= s.len(),
        cfws_scan(s, i, depth) matches Scan::Deep(p) ==> i <= p < s.len(),
    decreases s.len() - i,
{
    if i < s.len() {
        lemma_cfws_bounds(s, i + 1, depth - 1);
        lemma_cfws_bounds(s, i + 1, depth + 1);
        lemma_cfws_bounds(s, i + 1, depth);
        lemma_cfws_bounds(s, i + 1, 0);
        if i + 2 <= s.len() {
            lemma_cfws_bounds(s, i + 2, depth);
        }
        if i + 3 <= s.len() {
            lemma_cfws_bounds(s, i + 3, 0);
        }
    }
}

pub proof fn lemma_atext_run_bounds(s: Seq<char>, i: int)
    requires
        0 <= i <= s.len(),
    ensures
        i <= atext_run(s, i) <= s.len(),
    decreases s.len() - i,
{
    if i < s.len() && is_atext_char(s[i]) {
        lemma_atext_run_bounds(s, i + 1);
    }
}

pub proof fn lemma_datext_bounds(s: Seq<char>, i: int)
    requires
        0 <= i <= s.len(),
    ensures
        i <= datext_end(s, i) <= s.len(),
    decreases s.len() - i,
{
    if i < s.len() && is_atext_char(s[i]) {
        lemma_datext_bounds(s, i + 1);
    } else if i + 1 < s.len() && s[i] == '.' && is_atext_char(s[i + 1]) {
        lemma_datext_bounds(s, i + 2);
    }
}

/// `obs-domain` after its first label's `atext` run, which ended at `q`:
/// consumes `*( "." atom )` with `CFWS` tolerated around each dot, plus
/// the trailing `CFWS` of the last label.  Returns the scan result whose
/// `Done` position is where the enclosing rule resumes, paired with the
/// end of the domain span (the end of the last label's `atext` run, so
/// that trailing `CFWS` stays outside the span while `CFWS` between
/// labels stays inside it).
pub open spec fn domain_more(s: Seq<char>, q: int) -> (Scan, int)
    decreases s.len() - q,
        when 0 <= q <= s.len()
{
    match cfws_scan(s, q, 0) {
        Scan::Deep(x) => (Scan::Deep(x), q),
        Scan::Fail(x) => (Scan::Fail(x), q),
        Scan::Done(p) => if p < s.len() && s[p] == '.' {
            match cfws_scan(s, p + 1, 0) {
                Scan::Deep(x) => (Scan::Deep(x), q),
                Scan::Fail(x) => (Scan::Fail(x), q),
                Scan::Done(r) => {
                    let q2 = atext_run(s, r);
                    if q2 > r {
                        proof {
                            lemma_cfws_bounds(s, q, 0);
                            lemma_cfws_bounds(s, p + 1, 0);
                            lemma_atext_run_bounds(s, r);
                        }
                        domain_more(s, q2)
                    } else {
                        (Scan::Done(p), q)
                    }
                },
            }
        } else {
            (Scan::Done(p), q)
        },
    }
}

/// A `local-part` token starting at `p`: `dot-atom-text` if an `atext`
/// character stands there, else a `quoted-string` if a double quote
/// does; ordered choice, first success wins.
pub open spec fn local_end(s: Seq<char>, p: int) -> Scan {
    if 0 <= p && p < s.len() && is_atext_char(s[p]) {
        Scan::Done(datext_end(s, p + 1))
    } else if 0 <= p && p < s.len() && s[p] == '"' {
        quoted_scan(s, p + 1)
    } else {
        Scan::Fail(p)
    }
}

/// The anchored `email` production over the whole input:
/// `[CFWS] local-part "@" domain [CFWS]` with nothing left over.
/// The reported spans exclude the `CFWS` around each side of the `@`.
pub open spec fn email_match(s: Seq<char>) -> Outcome {
    match cfws_scan(s, 0, 0) {
        Scan::Deep(x) => Outcome::DepthLimit { at: x },
        Scan::Fail(x) => Outcome::NoParse { at: x, what: Expected::CommentText },
        Scan::Done(p) => match local_end(s, p) {
            Scan::Deep(x) => Outcome::DepthLimit { at: x },
            Scan::Fail(x) => Outcome::NoParse { at: x, what: Expected::LocalPart },
            Scan::Done(le) => match cfws_scan(s, le, 0) {
                Scan::Deep(x) => Outcome::DepthLimit { at: x },
                Scan::Fail(x) => Outcome::NoParse { at: x, what: Expected::CommentText },
                Scan::Done(a) => if a < s.len() && s[a] == '@' {
                    match cfws_scan(s, a + 1, 0) {
                        Scan::Deep(x) => Outcome::DepthLimit { at: x },
                        Scan::Fail(x) => Outcome::NoParse { at: x, what: Expected::CommentText },
                        Scan::Done(r) => if r < s.len() && is_atext_char(s[r]) {
                            match domain_more(s, atext_run(s, r)) {
                                (Scan::Deep(x), _) => Outcome::DepthLimit { at: x },
                                (Scan::Fail(x), _) => Outcome::NoParse {
                                    at: x,
                                    what: Expected::CommentText,
                                },
                                (Scan::Done(resume), de) => if resume == s.len() {
                                    Outcome::Parsed { ls: p, le: le, ds: r, de: de }
                                } else {
                                    Outcome::NoParse { at: resume, what: Expected::EndOfInput }
                                },
                            }
                        } else {
                            Outcome::NoParse { at: r, what: Expected::DomainText }
                        },
                    }
                } else {
                    Outcome::NoParse { at: a, what: Expected::AtSign }
                },
            },
        },
    }
}

pub proof fn lemma_quoted_bounds(s: Seq<char>, i: int)
    requires
        0 <= i <= s.len(),
    ensures
        quoted_scan(s, i) matches Scan::Done(p) ==> i < p <= s.len(),
        quoted_scan(s, i) matches Scan::Fail(p) ==> i <= p <= s.len(),
    decreases s.len() - i,
{
    if i < s.len() {
        lemma_quoted_bounds(s, i + 1);
        if i + 2 <= s.len() {
            lemma_quoted_bounds(s, i + 2);
        }
        if i + 3 <= s.len() {
            lemma_quoted_bounds(s, i + 3);
        }
    }
}

pub proof fn lemma_domain_bounds(s: Seq<char>, q: int)
    requires
        0 <= q <= s.len(),
    ensures
        q <= domain_more(s, q).1 <= s.len(),
        domain_more(s, q).0 matches Scan::Done(p) ==> domain_more(s, q).1 <= p <= s.len(),
    decreases s.len() - q,
{
    lemma_cfws_bounds(s, q, 0);
    if let Scan::Done(p) = cfws_scan(s, q, 0) {
        if p < s.len() && s[p] == '.' {
            lemma_cfws_bounds(s, p + 1, 0);
            if let Scan::Done(r) = cfws_scan(s, p + 1, 0) {
                let q2 = atext_run(s, r);
                lemma_atext_run_bounds(s, r);
                if q2 > r {
                    lemma_domain_bounds(s, q2);
                }
            }
        }
    }
}

/// An `atext` character at `i` makes the run from `i` advance.
pub proof fn lemma_atext_run_step(s: Seq<char>, i: int)
    requires
        0 <= i < s.len(),
        is_atext_char(s[i]),
    ensures
        atext_run(s, i) == atext_run(s, i + 1),
        i + 1 <= atext_run(s, i) <= s.len(),
{
    lemma_atext_run_bounds(s, i + 1);
}

/// Whether some position in `[lo, hi)` holds an `@`.
pub open spec fn has_at_sign(s: Seq<char>, lo: int, hi: int) -> bool {
    exists|k: int| lo <= k < hi && s[k] == '@'
}

/// A successful match yields well-nested, non-empty spans: the
/// `local-part` span ends before the `domain` span begins, both lie in
/// the input, and a literal `@` stands between them.
pub proof fn lemma_parsed_bounds(s: Seq<char>)
    ensures
        email_match(s) matches Outcome::Parsed { ls, le, ds, de } ==> {
            &&& 0 <= ls < le <= s.len()
            &&& le < ds < de <= s.len()
            &&& has_at_sign(s, le, ds)
        },
{
    lemma_cfws_bounds(s, 0, 0);
    if let Scan::Done(p) = cfws_scan(s, 0, 0) {
        if p < s.len() && is_atext_char(s[p]) {
            lemma_datext_bounds(s, p + 1);
        } else if p < s.len() && s[p] == '"' {
            lemma_quoted_bounds(s, p + 1);
        }
        if let Scan::Done(le) = local_end(s, p) {
            lemma_cfws_bounds(s, le, 0);
            if let Scan::Done(a) = cfws_scan(s, le, 0) {
                if a < s.len() && s[a] == '@' {
                    lemma_cfws_bounds(s, a + 1, 0);
                    if let Scan::Done(r) = cfws_scan(s, a + 1, 0) {
                        if r < s.len() && is_atext_char(s[r]) {
                            lemma_atext_run_step(s, r);
                            let q = atext_run(s, r);
                            lemma_domain_bounds(s, q);
                            if let (Scan::Done(resume), de) = domain_more(s, q) {
                                if resume == s.len() {
                                    assert(le <= a < r && s[a] == '@');
                                    assert(has_at_sign(s, le, r));
                                }
                            }
                        }
                    }
                }
            }
        }
    }
}

} // verus!
