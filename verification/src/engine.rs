//! Executable matching engine.  Every scanner here is an iterative
//! mirror of a spec scanner in `scan` and is proved to return exactly
//! its value; backtracking never happens at run time because each spec
//! production is written so that one look at the current character (or
//! one more for folds, dots and escapes) decides the step.

use vstd::prelude::*;

use crate::chars::atext_char;
use crate::chars::ctext_char;
use crate::chars::qtext_char;
use crate::chars::quotable_char;
use crate::chars::wsp_char;
use crate::scan::atext_run;
use crate::scan::cfws_scan;
use crate::scan::datext_end;
use crate::scan::domain_more;
use crate::scan::email_match;
use crate::scan::lemma_cfws_bounds;
use crate::scan::lemma_quoted_bounds;
use crate::scan::local_end;
use crate::scan::quoted_scan;
use crate::scan::Expected;
use crate::scan::Outcome;
use crate::scan::Scan;
use crate::scan::MAX_COMMENT_DEPTH;

verus! {

/// Run-time counterpart of `Scan`.
pub enum ScanResult {
    Done(usize),
    Fail(usize),
    Deep(usize),
}

impl View for ScanResult {
    type V = Scan;

    open spec fn view(&self) -> Scan {
        match self {
            ScanResult::Done(p) => Scan::Done(*p as int),
            ScanResult::Fail(p) => Scan::Fail(*p as int),
            ScanResult::Deep(p) => Scan::Deep(*p as int),
        }
    }
}

/// Run-time counterpart of `Outcome`.
pub enum MatchOutcome {
    Parsed { local_from: usize, local_to: usize, domain_from: usize, domain_to: usize },
    Mismatch { at: usize, what: Expected },
    DepthLimit { at: usize },
}

impl View for MatchOutcome {
    type V = Outcome;

    open spec fn view(&self) -> Outcome {
        match self {
            MatchOutcome::Parsed { local_from, local_to, domain_from, domain_to } => {
                Outcome::Parsed {
                    ls: *local_from as int,
                    le: *local_to as int,
                    ds: *domain_from as int,
                    de: *domain_to as int,
                }
            },
            MatchOutcome::Mismatch { at, what } => Outcome::NoParse { at: *at as int, what: *what },
            MatchOutcome::DepthLimit { at } => Outcome::DepthLimit { at: *at as int },
        }
    }
}

/// Greedy `CFWS` run from `start`, comments included, with the nesting
/// depth held in a counter instead of the call stack.
pub fn scan_cfws(s: &Vec<char>, start: usize) -> (r: ScanResult)
    requires
        start <= s@.len(),
    ensures
        r@ == cfws_scan(s@, start as int, 0),
{
    let mut j = start;
    let mut depth: usize = 0;
    loop
        invariant
            start <= j <= s@.len(),
            depth <= MAX_COMMENT_DEPTH,
            cfws_scan(s@, j as int, depth as int) == cfws_scan(s@, start as int, 0),
        decreases s@.len() - j,
    {
        if j == s.len() {
            if depth == 0 {
                return ScanResult::Done(j);
            } else {
                return ScanResult::Fail(j);
            }
        }
        let c = s[j];
        if depth == 0 {
            if c == ' ' || c == '\t' {
                j = j + 1;
            } else if c == '\r' {
                if j + 1 < s.len() && s[j + 1] == '\n' {
                    if j + 2 == s.len() {
                        return ScanResult::Done(j + 2);
                    } else if wsp_char(s[j + 2]) {
                        j = j + 3;
                    } else {
                        return ScanResult::Done(j);
                    }
                } else {
                    return ScanResult::Done(j);
                }
            } else if c == '(' {
                depth = 1;
                j = j + 1;
            } else {
                return ScanResult::Done(j);
            }
        } else {
            if c == ')' {
                depth = depth - 1;
                j = j + 1;
            } else if c == '(' {
                if depth >= MAX_COMMENT_DEPTH {
                    return ScanResult::Deep(j);
                }
                depth = depth + 1;
                j = j + 1;
            } else if c == '\\' {
                if j + 1 < s.len() && quotable_char(s[j + 1]) {
                    j = j + 2;
                } else {
                    return ScanResult::Fail(j);
                }
            } else if ctext_char(c) {
                j = j + 1;
            } else {
                return ScanResult::Fail(j);
            }
        }
    }
}

/// End of the maximal `atext` run from `start`.
pub fn scan_atext_run(s: &Vec<char>, start: usize) -> (r: usize)
    requires
        start <= s@.len(),
    ensures
        r as int == atext_run(s@, start as int),
        start <= r <= s@.len(),
{
    let mut j = start;
    loop
        invariant
            start <= j <= s@.len(),
            atext_run(s@, j as int) == atext_run(s@, start as int),
        decreases s@.len() - j,
    {
        if j < s.len() && atext_char(s[j]) {
            j = j + 1;
        } else {
            return j;
        }
    }
}

/// End of a `dot-atom-text` whose first `atext` character stands just
/// before `start`.
pub fn scan_datext(s: &Vec<char>, start: usize) -> (r: usize)
    requires
        start <= s@.len(),
    ensures
        r as int == datext_end(s@, start as int),
        start <= r <= s@.len(),
{
    let mut j = start;
    loop
        invariant
            start <= j <= s@.len(),
            datext_end(s@, j as int) == datext_end(s@, start as int),
        decreases s@.len() - j,
    {
        if j < s.len() && atext_char(s[j]) {
            j = j + 1;
        } else if j < s.len() && s[j] == '.' && j + 1 < s.len() && atext_char(s[j + 1]) {
            j = j + 2;
        } else {
            return j;
        }
    }
}

/// Interior of a `quoted-string`, entered just after the opening quote.
pub fn scan_quoted(s: &Vec<char>, start: usize) -> (r: ScanResult)
    requires
        start <= s@.len(),
    ensures
        r@ == quoted_scan(s@, start as int),
{
    let mut j = start;
    loop
        invariant
            start <= j <= s@.len(),
            quoted_scan(s@, j as int) == quoted_scan(s@, start as int),
        decreases s@.len() - j,
    {
        if j == s.len() {
            return ScanResult::Fail(j);
        }
        let c = s[j];
        if c == '"' {
            return ScanResult::Done(j + 1);
        } else if c == '\\' {
            if j + 1 < s.len() && quotable_char(s[j + 1]) {
                j = j + 2;
            } else {
                return ScanResult::Fail(j);
            }
        } else if qtext_char(c) || wsp_char(c) {
            j = j + 1;
        } else if c == '\r' {
            if j + 1 < s.len() && s[j + 1] == '\n' && j + 2 < s.len() && wsp_char(s[j + 2]) {
                j = j + 3;
            } else {
                return ScanResult::Fail(j);
            }
        } else {
            return ScanResult::Fail(j);
        }
    }
}

/// `obs-domain` after its first label's `atext` run ended at `q0`:
/// returns the resume result and the end of the domain span.
pub fn scan_domain(s: &Vec<char>, q0: usize) -> (r: (ScanResult, usize))
    requires
        q0 <= s@.len(),
    ensures
        r.0@ == domain_more(s@, q0 as int).0,
        r.1 as int == domain_more(s@, q0 as int).1,
{
    let mut q = q0;
    loop
        invariant
            q0 <= q <= s@.len(),
            domain_more(s@, q as int) == domain_more(s@, q0 as int),
        decreases s@.len() - q,
    {
        let c = scan_cfws(s, q);
        match c {
            ScanResult::Deep(x) => {
                return (ScanResult::Deep(x), q);
            },
            ScanResult::Fail(x) => {
                return (ScanResult::Fail(x), q);
            },
            ScanResult::Done(p) => {
                proof {
                    lemma_cfws_bounds(s@, q as int, 0);
                }
                if p < s.len() && s[p] == '.' {
                    let c2 = scan_cfws(s, p + 1);
                    match c2 {
                        ScanResult::Deep(x) => {
                            return (ScanResult::Deep(x), q);
                        },
                        ScanResult::Fail(x) => {
                            return (ScanResult::Fail(x), q);
                        },
                        ScanResult::Done(rr) => {
                            proof {
                                lemma_cfws_bounds(s@, p as int + 1, 0);
                            }
                            let q2 = scan_atext_run(s, rr);
                            if q2 > rr {
                                q = q2;
                            } else {
                                return (ScanResult::Done(p), q);
                            }
                        },
                    }
                } else {
                    return (ScanResult::Done(p), q);
                }
            },
        }
    }
}

/// The matching engine for the `email` production.
pub struct EmailParser;

impl EmailParser {
    /// Anchored match of the whole character sequence against `email`,
    /// yielding the `local-part` and `domain` spans or the failure.
    pub fn scan_email(s: &Vec<char>) -> (r: MatchOutcome)
        ensures
            r@ == email_match(s@),
    {
        let c0 = scan_cfws(s, 0);
        let p = match c0 {
            ScanResult::Deep(x) => {
                return MatchOutcome::DepthLimit { at: x };
            },
            ScanResult::Fail(x) => {
                return MatchOutcome::Mismatch { at: x, what: Expected::CommentText };
            },
            ScanResult::Done(p) => p,
        };
        proof {
            lemma_cfws_bounds(s@, 0, 0);
        }
        let lr: ScanResult = if p < s.len() && atext_char(s[p]) {
            let e = scan_datext(s, p + 1);
            ScanResult::Done(e)
        } else if p < s.len() && s[p] == '"' {
            scan_quoted(s, p + 1)
        } else {
            ScanResult::Fail(p)
        };
        assert(lr@ == local_end(s@, p as int));
        let le = match lr {
            ScanResult::Deep(x) => {
                return MatchOutcome::DepthLimit { at: x };
            },
            ScanResult::Fail(x) => {
                return MatchOutcome::Mismatch { at: x, what: Expected::LocalPart };
            },
            ScanResult::Done(le) => le,
        };
        proof {
            if p < s@.len() && s@[p as int] == '"' {
                lemma_quoted_bounds(s@, p as int + 1);
            }
        }
        let c1 = scan_cfws(s, le);
        let a = match c1 {
            ScanResult::Deep(x) => {
                return MatchOutcome::DepthLimit { at: x };
            },
            ScanResult::Fail(x) => {
                return MatchOutcome::Mismatch { at: x, what: Expected::CommentText };
            },
            ScanResult::Done(a) => a,
        };
        proof {
            lemma_cfws_bounds(s@, le as int, 0);
        }
        if !(a < s.len() && s[a] == '@') {
            return MatchOutcome::Mismatch { at: a, what: Expected::AtSign };
        }
        let c2 = scan_cfws(s, a + 1);
        let r0 = match c2 {
            ScanResult::Deep(x) => {
                return MatchOutcome::DepthLimit { at: x };
            },
            ScanResult::Fail(x) => {
                return MatchOutcome::Mismatch { at: x, what: Expected::CommentText };
            },
            ScanResult::Done(r0) => r0,
        };
        proof {
            lemma_cfws_bounds(s@, a as int + 1, 0);
        }
        if !(r0 < s.len() && atext_char(s[r0])) {
            return MatchOutcome::Mismatch { at: r0, what: Expected::DomainText };
        }
        let q = scan_atext_run(s, r0);
        let d = scan_domain(s, q);
        match d.0 {
            ScanResult::Deep(x) => MatchOutcome::DepthLimit { at: x },
            ScanResult::Fail(x) => MatchOutcome::Mismatch { at: x, what: Expected::CommentText },
            ScanResult::Done(resume) => {
                if resume == s.len() {
                    MatchOutcome::Parsed {
                        local_from: p,
                        local_to: le,
                        domain_from: r0,
                        domain_to: d.1,
                    }
                } else {
                    MatchOutcome::Mismatch { at: resume, what: Expected::EndOfInput }
                }
            },
        }
    }
}

} // verus!
