//! General properties of the grammar, stated and proved over the spec
//! scanners that `EmailAddress::parse` is specified by.

use vstd::prelude::*;

use crate::chars::is_atext_char;
use crate::chars::is_ctext_char;
use crate::chars::is_qtext_char;
use crate::chars::is_quotable;
use crate::chars::is_wsp_char;
use crate::scan::atext_run;
use crate::scan::cfws_scan;
use crate::scan::datext_end;
use crate::scan::domain_more;
use crate::scan::email_match;
use crate::scan::lemma_atext_run_bounds;
use crate::scan::lemma_atext_run_step;
use crate::scan::lemma_cfws_bounds;
use crate::scan::lemma_datext_bounds;
use crate::scan::lemma_domain_bounds;
use crate::scan::lemma_parsed_bounds;
use crate::scan::lemma_quoted_bounds;
use crate::scan::local_end;
use crate::scan::quoted_scan;
use crate::scan::Expected;
use crate::scan::Outcome;
use crate::scan::Scan;
use crate::scan::MAX_COMMENT_DEPTH;

verus! {

/// An input that is nothing but whitespace and comments never parses:
/// when the leading `CFWS` scan swallows the entire input (or fails or
/// overflows inside it), no address is returned.  With the whole input
/// consumed, the mismatch is reported at the end of the input, where a
/// local-part was expected.
pub proof fn lemma_whitespace_comments_only(s: Seq<char>)
    requires
        cfws_scan(s, 0, 0) matches Scan::Done(p) ==> p == s.len(),
    ensures
        !(email_match(s) matches Outcome::Parsed { .. }),
        cfws_scan(s, 0, 0) matches Scan::Done(p) ==> email_match(s) == (Outcome::NoParse {
            at: s.len() as int,
            what: Expected::LocalPart,
        }),
{
}

proof fn lemma_wsp_run_consumed(s: Seq<char>, i: int)
    requires
        0 <= i <= s.len(),
        forall|j: int| 0 <= j < s.len() ==> is_wsp_char(#[trigger] s[j]),
    ensures
        cfws_scan(s, i, 0) == Scan::Done(s.len() as int),
    decreases s.len() - i,
{
    if i < s.len() {
        lemma_wsp_run_consumed(s, i + 1);
    }
}

/// An input of whitespace alone — empty included — is rejected at its
/// end, where a local-part was expected.
pub proof fn lemma_all_whitespace_fails(s: Seq<char>)
    requires
        forall|j: int| 0 <= j < s.len() ==> is_wsp_char(#[trigger] s[j]),
    ensures
        email_match(s) == (Outcome::NoParse { at: s.len() as int, what: Expected::LocalPart }),
{
    lemma_wsp_run_consumed(s, 0);
    lemma_whitespace_comments_only(s);
}

/// Every character of a `dot-atom-text` span is either `atext` or a dot
/// directly followed, still inside the span, by an `atext` character.
pub proof fn lemma_datext_labels(s: Seq<char>, i: int)
    requires
        0 <= i <= s.len(),
    ensures
        forall|j: int|
            i <= j < datext_end(s, i) ==> is_atext_char(#[trigger] s[j]) || (s[j] == '.' && j + 1
                < datext_end(s, i) && is_atext_char(s[j + 1])),
    decreases s.len() - i,
{
    if i < s.len() && is_atext_char(s[i]) {
        lemma_datext_labels(s, i + 1);
    } else if i + 1 < s.len() && s[i] == '.' && is_atext_char(s[i + 1]) {
        lemma_datext_labels(s, i + 2);
        lemma_datext_bounds(s, i + 2);
    }
}

/// `dot-atom-text` admits no empty label: a matched span neither starts
/// nor ends with a dot and never holds two dots in a row, so inputs
/// with a leading, trailing or doubled dot in an unquoted local-part or
/// a domain label sequence are rejected.
pub proof fn lemma_dot_atom_no_empty_labels(s: Seq<char>, i: int)
    requires
        0 <= i < s.len(),
        is_atext_char(s[i]),
    ensures
        ({
            let e = datext_end(s, i + 1);
            &&& is_atext_char(s[e - 1])
            &&& forall|j: int| i <= j < e - 1 ==> !(#[trigger] s[j] == '.' && s[j + 1] == '.')
        }),
{
    lemma_datext_labels(s, i + 1);
    lemma_datext_bounds(s, i + 1);
    let e = datext_end(s, i + 1);
    if e > i + 1 {
        assert(is_atext_char(s[e - 1])) by {
            assert(i + 1 <= e - 1 < e);
        }
    }
}

/// A matched `quoted-string` ends with the closing double quote.
pub proof fn lemma_quoted_shape(s: Seq<char>, i: int)
    requires
        0 <= i <= s.len(),
    ensures
        quoted_scan(s, i) matches Scan::Done(e) ==> s[e - 1] == '"',
    decreases s.len() - i,
{
    if i < s.len() {
        lemma_quoted_shape(s, i + 1);
        if i + 2 <= s.len() {
            lemma_quoted_shape(s, i + 2);
        }
        if i + 3 <= s.len() {
            lemma_quoted_shape(s, i + 3);
        }
    }
}

/// A quoted-string local-part keeps its surrounding quotes: when a
/// successful match has a local span opening with a double quote, the
/// span closes with one too.  Together with the entry point's promise
/// that the extracted value is the exact text of the span, escapes and
/// quotes survive verbatim.
pub proof fn lemma_quoted_local_verbatim(s: Seq<char>)
    ensures
        email_match(s) matches Outcome::Parsed { ls, le, .. } ==> (s[ls] == '"' ==> s[le - 1]
            == '"'),
{
    if let Scan::Done(p) = cfws_scan(s, 0, 0) {
        if 0 <= p < s.len() && !is_atext_char(s[p]) && s[p] == '"' {
            lemma_quoted_shape(s, p + 1);
        }
    }
}

/// Characters of a maximal `atext` run are all `atext`.
pub proof fn lemma_atext_run_chars(s: Seq<char>, i: int)
    requires
        0 <= i <= s.len(),
    ensures
        forall|j: int| i <= j < atext_run(s, i) ==> is_atext_char(#[trigger] s[j]),
    decreases s.len() - i,
{
    if i < s.len() && is_atext_char(s[i]) {
        lemma_atext_run_chars(s, i + 1);
    }
}

/// Characters consumed by a successful top-level `CFWS` scan are
/// whitespace, CR, LF, or stand at or after an opening parenthesis of a
/// comment within the scanned range.
pub proof fn lemma_cfws_chars(s: Seq<char>, i: int)
    requires
        0 <= i <= s.len(),
    ensures
        cfws_scan(s, i, 0) matches Scan::Done(p) ==> forall|j: int|
            i <= j < p ==> is_wsp_char(#[trigger] s[j]) || s[j] == '\r' || s[j] == '\n' || exists|
                k: int,
            | i <= k <= j && #[trigger] s[k] == '(',
    decreases s.len() - i,
{
    if i < s.len() {
        if is_wsp_char(s[i]) {
            lemma_cfws_chars(s, i + 1);
        } else if s[i] == '\r' {
            if i + 1 < s.len() && s[i + 1] == '\n' && i + 2 < s.len() && is_wsp_char(s[i + 2]) {
                lemma_cfws_chars(s, i + 3);
            }
        } else if s[i] == '(' {
            if let Scan::Done(p) = cfws_scan(s, i, 0) {
                assert forall|j: int| i <= j < p implies is_wsp_char(s[j]) || s[j] == '\r' || s[j]
                    == '\n' || exists|k: int| i <= k <= j && #[trigger] s[k] == '(' by {
                    assert(i <= i <= j && s[i] == '(');
                }
            }
        }
    }
}

/// Characters of the domain span past the first label are `atext`,
/// dots, whitespace, CR, LF, or stand at or after a comment's opening
/// parenthesis within that range.
pub proof fn lemma_domain_chars(s: Seq<char>, q: int)
    requires
        0 <= q <= s.len(),
    ensures
        domain_more(s, q).0 matches Scan::Done(x) ==> forall|j: int|
            q <= j < domain_more(s, q).1 ==> is_atext_char(#[trigger] s[j]) || s[j] == '.'
                || is_wsp_char(s[j]) || s[j] == '\r' || s[j] == '\n' || exists|k: int|
                q <= k <= j && #[trigger] s[k] == '(',
    decreases s.len() - q,
{
    lemma_cfws_bounds(s, q, 0);
    lemma_cfws_chars(s, q);
    if let Scan::Done(p) = cfws_scan(s, q, 0) {
        if p < s.len() && s[p] == '.' {
            lemma_cfws_bounds(s, p + 1, 0);
            lemma_cfws_chars(s, p + 1);
            if let Scan::Done(r) = cfws_scan(s, p + 1, 0) {
                let q2 = atext_run(s, r);
                lemma_atext_run_bounds(s, r);
                lemma_atext_run_chars(s, r);
                if q2 > r {
                    lemma_domain_chars(s, q2);
                    lemma_domain_bounds(s, q2);
                    if domain_more(s, q2).0 matches Scan::Done(x) {
                        let de = domain_more(s, q2).1;
                        assert forall|j: int| q <= j < de implies is_atext_char(s[j]) || s[j]
                            == '.' || is_wsp_char(s[j]) || s[j] == '\r' || s[j] == '\n' || exists|
                            k: int,
                        | q <= k <= j && #[trigger] s[k] == '(' by {
                            if j < p {
                            } else if j == p {
                            } else if j < r {
                            } else if j < q2 {
                            } else {
                            }
                        }
                    }
                }
            }
        }
    }
}

/// A second unescaped `@` causes failure.  Stated through a successful
/// match: the local-part holds no `@` at all when it is unquoted, and
/// any `@` inside the domain span lies in a comment — some `(` opens
/// before it within the span.  An `@` anywhere else between the spans
/// is impossible, the separator excepted, because the match consumed
/// the whole input.
#[verifier::rlimit(60)]
pub proof fn lemma_no_second_at(s: Seq<char>)
    ensures
        email_match(s) matches Outcome::Parsed { ls, le, ds, de } ==> {
            &&& (s[ls] != '"' ==> forall|j: int| ls <= j < le ==> #[trigger] s[j] != '@')
            &&& forall|j: int|
                ds <= j < de && #[trigger] s[j] == '@' ==> exists|k: int|
                    ds <= k < j && #[trigger] s[k] == '('
        },
{
    lemma_cfws_bounds(s, 0, 0);
    if let Scan::Done(p) = cfws_scan(s, 0, 0) {
        if p < s.len() && is_atext_char(s[p]) {
            lemma_datext_labels(s, p + 1);
            lemma_datext_bounds(s, p + 1);
        } else if p < s.len() && s[p] == '"' {
            lemma_quoted_bounds(s, p + 1);
        }
        if let Scan::Done(le) = local_end(s, p) {
            lemma_cfws_bounds(s, le, 0);
            if let Scan::Done(a) = cfws_scan(s, le, 0) {
                if a < s.len() && s[a] == '@' {
                    lemma_cfws_bounds(s, a + 1, 0);
                    if let Scan::Done(r) = cfws_scan(s, a + 1, 0) {
                        if r < s.len() && is_atext_char(s[r]) {
                            let q = atext_run(s, r);
                            lemma_atext_run_bounds(s, r);
                            lemma_atext_run_chars(s, r);
                            lemma_domain_bounds(s, q);
                            lemma_domain_chars(s, q);
                            if let (Scan::Done(resume), de) = domain_more(s, q) {
                                if resume == s.len() {
                                    assert forall|j: int| r <= j < de && #[trigger] s[j] == '@'
                                        implies exists|k: int|
                                        r <= k < j && #[trigger] s[k] == '(' by {
                                        if j >= q {
                                            let k = choose|k: int|
                                                q <= k <= j && #[trigger] s[k] == '(';
                                            assert(r <= k < j && s[k] == '(');
                                        }
                                    }
                                }
                            }
                        }
                    }
                }
            }
        }
    }
}

/// An `atext` run transplants: if `t` carries the same characters from
/// `k` that `s` carries from `i` across the whole run, and the run is
/// stopped in `t` the same way (end of input or a non-`atext`
/// character), the run in `t` has the same length.
proof fn lemma_atext_run_shift(s: Seq<char>, t: Seq<char>, i: int, k: int)
    requires
        0 <= i <= s.len(),
        0 <= k <= t.len(),
        atext_run(s, i) - i + k <= t.len(),
        forall|m: int| 0 <= m < atext_run(s, i) - i ==> #[trigger] t[k + m] == s[i + m],
        atext_run(s, i) - i + k == t.len() || !is_atext_char(t[atext_run(s, i) - i + k]),
    ensures
        atext_run(t, k) == atext_run(s, i) - i + k,
    decreases s.len() - i,
{
    lemma_atext_run_bounds(s, i);
    let e = atext_run(s, i);
    if i < e {
        assert(is_atext_char(s[i]));
        assert(t[k + 0] == s[i + 0]);
        assert(atext_run(s, i + 1) == e);
        assert forall|m: int| 0 <= m < e - (i + 1) implies #[trigger] t[k + 1 + m] == s[i + 1 + m] by {
            assert(t[k + (m + 1)] == s[i + (m + 1)]);
        }
        lemma_atext_run_shift(s, t, i + 1, k + 1);
    } else {
        assert(atext_run(t, k) == k);
    }
}

/// `dot-atom-text` transplants in the same way; the stopping context in
/// `t` must refuse both a further `atext` character and a dot followed
/// by one.
proof fn lemma_datext_shift(s: Seq<char>, t: Seq<char>, i: int, k: int)
    requires
        0 <= i <= s.len(),
        0 <= k <= t.len(),
        datext_end(s, i) - i + k <= t.len(),
        forall|m: int| 0 <= m < datext_end(s, i) - i ==> #[trigger] t[k + m] == s[i + m],
        ({
            let n = datext_end(s, i) - i;
            &&& (k + n == t.len() || !is_atext_char(t[k + n]))
            &&& !(k + n + 1 < t.len() && k + n < t.len() && t[k + n] == '.' && is_atext_char(
                t[k + n + 1],
            ))
        }),
    ensures
        datext_end(t, k) == datext_end(s, i) - i + k,
    decreases s.len() - i,
{
    lemma_datext_bounds(s, i);
    let e = datext_end(s, i);
    if i < s.len() && is_atext_char(s[i]) {
        lemma_datext_bounds(s, i + 1);
        assert(t[k + 0] == s[i + 0]);
        assert forall|m: int| 0 <= m < e - (i + 1) implies #[trigger] t[k + 1 + m] == s[i + 1 + m] by {
            assert(t[k + (m + 1)] == s[i + (m + 1)]);
        }
        lemma_datext_shift(s, t, i + 1, k + 1);
    } else if i + 1 < s.len() && s[i] == '.' && is_atext_char(s[i + 1]) {
        lemma_datext_bounds(s, i + 2);
        assert(e >= i + 2);
        assert(t[k + 0] == s[i + 0]);
        assert(t[k + 1] == s[i + 1]);
        assert forall|m: int| 0 <= m < e - (i + 2) implies #[trigger] t[k + 2 + m] == s[i + 2 + m] by {
            assert(t[k + (m + 2)] == s[i + (m + 2)]);
        }
        lemma_datext_shift(s, t, i + 2, k + 2);
    } else {
        assert(datext_end(t, k) == k);
    }
}

/// A matched `quoted-string` interior transplants: it is self-delimited
/// by its closing quote, so carrying its characters to another place
/// reproduces the match there, whatever follows.
proof fn lemma_quoted_shift(s: Seq<char>, t: Seq<char>, i: int, k: int, e: int)
    requires
        0 <= i <= s.len(),
        0 <= k <= t.len(),
        quoted_scan(s, i) == Scan::Done(e),
        e - i + k <= t.len(),
        forall|m: int| 0 <= m < e - i ==> #[trigger] t[k + m] == s[i + m],
    ensures
        quoted_scan(t, k) == Scan::Done(k + e - i),
    decreases s.len() - i,
{
    lemma_quoted_bounds(s, i);
    assert(t[k + 0] == s[i + 0]);
    if s[i] == '"' {
        assert(e == i + 1);
    } else if s[i] == '\\' {
        lemma_quoted_bounds(s, i + 2);
        assert(t[k + 1] == s[i + 1]);
        assert forall|m: int| 0 <= m < e - (i + 2) implies #[trigger] t[k + 2 + m] == s[i + 2
            + m] by {
            assert(t[k + (m + 2)] == s[i + (m + 2)]);
        }
        lemma_quoted_shift(s, t, i + 2, k + 2, e);
    } else if is_qtext_char(s[i]) || is_wsp_char(s[i]) {
        lemma_quoted_bounds(s, i + 1);
        assert forall|m: int| 0 <= m < e - (i + 1) implies #[trigger] t[k + 1 + m] == s[i + 1
            + m] by {
            assert(t[k + (m + 1)] == s[i + (m + 1)]);
        }
        lemma_quoted_shift(s, t, i + 1, k + 1, e);
    } else {
        lemma_quoted_bounds(s, i + 3);
        assert(t[k + 1] == s[i + 1]);
        assert(t[k + 2] == s[i + 2]);
        assert forall|m: int| 0 <= m < e - (i + 3) implies #[trigger] t[k + 3 + m] == s[i + 3
            + m] by {
            assert(t[k + (m + 3)] == s[i + (m + 3)]);
        }
        lemma_quoted_shift(s, t, i + 3, k + 3, e);
    }
}

/// A `CFWS` run that stops, strictly inside the input, at a character
/// that cannot extend it in any way (not whitespace, not a CR, not an
/// opening parenthesis) transplants: the stop decision reads only that
/// one character, so carrying the run and its stopping character to
/// another place reproduces the scan there.
#[verifier::rlimit(60)]
proof fn lemma_cfws_shift(s: Seq<char>, t: Seq<char>, i: int, k: int, d: int, p: int)
    requires
        0 <= i <= s.len(),
        0 <= k,
        d >= 0,
        cfws_scan(s, i, d) == Scan::Done(p),
        p < s.len(),
        !is_wsp_char(s[p]),
        s[p] != '\r',
        s[p] != '(',
        k + (p - i) < t.len(),
        forall|m: int| 0 <= m <= p - i ==> #[trigger] t[k + m] == s[i + m],
    ensures
        cfws_scan(t, k, d) == Scan::Done(k + p - i),
    decreases s.len() - i,
{
    lemma_cfws_bounds(s, i, d);
    assert(t[k + 0] == s[i + 0]);
    if d == 0 {
        if is_wsp_char(s[i]) {
            assert forall|m: int| 0 <= m <= p - (i + 1) implies #[trigger] t[k + 1 + m] == s[i + 1
                + m] by {
                assert(t[k + (m + 1)] == s[i + (m + 1)]);
            }
            lemma_cfws_shift(s, t, i + 1, k + 1, 0, p);
        } else if s[i] == '\r' {
            assert(i + 1 < s.len() && s[i + 1] == '\n' && i + 2 < s.len() && is_wsp_char(s[i + 2]));
            lemma_cfws_bounds(s, i + 3, 0);
            assert(t[k + 1] == s[i + 1]);
            assert(t[k + 2] == s[i + 2]);
            assert forall|m: int| 0 <= m <= p - (i + 3) implies #[trigger] t[k + 3 + m] == s[i + 3
                + m] by {
                assert(t[k + (m + 3)] == s[i + (m + 3)]);
            }
            lemma_cfws_shift(s, t, i + 3, k + 3, 0, p);
        } else if s[i] == '(' {
            assert forall|m: int| 0 <= m <= p - (i + 1) implies #[trigger] t[k + 1 + m] == s[i + 1
                + m] by {
                assert(t[k + (m + 1)] == s[i + (m + 1)]);
            }
            lemma_cfws_shift(s, t, i + 1, k + 1, 1, p);
        } else {
            assert(p == i);
        }
    } else {
        if s[i] == ')' || is_ctext_char(s[i]) {
            lemma_cfws_bounds(s, i + 1, if s[i] == ')' { d - 1 } else { d });
            assert forall|m: int| 0 <= m <= p - (i + 1) implies #[trigger] t[k + 1 + m] == s[i + 1
                + m] by {
                assert(t[k + (m + 1)] == s[i + (m + 1)]);
            }
            if s[i] == ')' {
                lemma_cfws_shift(s, t, i + 1, k + 1, d - 1, p);
            } else {
                lemma_cfws_shift(s, t, i + 1, k + 1, d, p);
            }
        } else if s[i] == '(' {
            assert(d < MAX_COMMENT_DEPTH);
            assert forall|m: int| 0 <= m <= p - (i + 1) implies #[trigger] t[k + 1 + m] == s[i + 1
                + m] by {
                assert(t[k + (m + 1)] == s[i + (m + 1)]);
            }
            lemma_cfws_shift(s, t, i + 1, k + 1, d + 1, p);
        } else {
            assert(s[i] == '\\' && i + 1 < s.len() && is_quotable(s[i + 1]));
            lemma_cfws_bounds(s, i + 2, d);
            assert(t[k + 1] == s[i + 1]);
            assert forall|m: int| 0 <= m <= p - (i + 2) implies #[trigger] t[k + 2 + m] == s[i + 2
                + m] by {
                assert(t[k + (m + 2)] == s[i + (m + 2)]);
            }
            lemma_cfws_shift(s, t, i + 2, k + 2, d, p);
        }
    }
}

/// A maximal `atext` run that stops inside the input stops at a
/// non-`atext` character.
proof fn lemma_atext_run_stop(s: Seq<char>, i: int)
    requires
        0 <= i <= s.len(),
    ensures
        atext_run(s, i) < s.len() ==> !is_atext_char(s[atext_run(s, i)]),
    decreases s.len() - i,
{
    if i < s.len() && is_atext_char(s[i]) {
        lemma_atext_run_stop(s, i + 1);
    }
}

/// The tail of a fully consumed domain transplants to the end of
/// another sequence: when `domain_more` in `s` resumes exactly at the
/// end of the input, carrying the domain span's remaining characters
/// `[q, de)` to the tail of `t` reproduces the scan there, with the
/// trailing `CFWS` of `s` replaced by the end of `t`.
proof fn lemma_domain_shift(s: Seq<char>, t: Seq<char>, q: int, k: int, de: int)
    requires
        0 <= q <= s.len(),
        0 <= k <= t.len(),
        domain_more(s, q) == (Scan::Done(s.len() as int), de),
        k + (de - q) == t.len(),
        forall|m: int| 0 <= m < de - q ==> #[trigger] t[k + m] == s[q + m],
    ensures
        domain_more(t, k) == (Scan::Done(t.len() as int), t.len() as int),
    decreases s.len() - q,
{
    lemma_domain_bounds(s, q);
    lemma_cfws_bounds(s, q, 0);
    if let Scan::Done(p) = cfws_scan(s, q, 0) {
        if p < s.len() && s[p] == '.' {
            lemma_cfws_bounds(s, p + 1, 0);
            if let Scan::Done(r) = cfws_scan(s, p + 1, 0) {
                let q2 = atext_run(s, r);
                lemma_atext_run_bounds(s, r);
                if q2 > r {
                    assert(domain_more(s, q2) == (Scan::Done(s.len() as int), de));
                    lemma_domain_bounds(s, q2);
                    assert(p < r < q2 <= de);
                    lemma_cfws_shift(s, t, q, k, 0, p);
                    let pk = k + (p - q);
                    assert(t[k + (p - q)] == s[q + (p - q)]);
                    assert forall|m: int| 0 <= m <= r - (p + 1) implies #[trigger] t[pk + 1 + m]
                        == s[p + 1 + m] by {
                        assert(t[k + (p + 1 + m - q)] == s[q + (p + 1 + m - q)]);
                    }
                    lemma_cfws_shift(s, t, p + 1, pk + 1, 0, r);
                    let rk = k + (r - q);
                    assert forall|m: int| 0 <= m < q2 - r implies #[trigger] t[rk + m] == s[r
                        + m] by {
                        assert(t[k + (r + m - q)] == s[q + (r + m - q)]);
                    }
                    if q2 < de {
                        lemma_atext_run_stop(s, r);
                        assert(t[k + (q2 - q)] == s[q + (q2 - q)]);
                    }
                    lemma_atext_run_shift(s, t, r, rk);
                    let q2k = k + (q2 - q);
                    assert(atext_run(t, rk) == q2k);
                    assert forall|m: int| 0 <= m < de - q2 implies #[trigger] t[q2k + m] == s[q2
                        + m] by {
                        assert(t[k + (q2 + m - q)] == s[q + (q2 + m - q)]);
                    }
                    lemma_domain_shift(s, t, q2, q2k, de);
                    assert(cfws_scan(t, k, 0) == Scan::Done(pk));
                    assert(t[pk] == '.') by {
                        assert(t[k + (p - q)] == s[q + (p - q)]);
                    }
                    assert(domain_more(t, k) == domain_more(t, q2k));
                } else {
                    assert(false);
                }
            } else {
                assert(false);
            }
        } else {
            assert(de == q && p == s.len());
            assert(k == t.len());
            assert(cfws_scan(t, k, 0) == Scan::Done(k));
        }
    } else {
        assert(false);
    }
}

/// Round trip on the canonical form.  A successful parse of `s`
/// extracts `local = s[ls..le]` and `domain = s[ds..de]`; the string
/// `local + "@" + domain`, with no surrounding `CFWS`, matches `email`
/// again, its local span covering exactly `local` and its domain span
/// exactly `domain` — so re-parsing returns the identical two values.
#[verifier::rlimit(100)]
pub proof fn lemma_round_trip(s: Seq<char>)
    ensures
        email_match(s) matches Outcome::Parsed { ls, le, ds, de } ==> {
            let t = s.subrange(ls, le) + seq!['@'] + s.subrange(ds, de);
            &&& email_match(t) == (Outcome::Parsed {
                ls: 0,
                le: le - ls,
                ds: le - ls + 1,
                de: t.len() as int,
            })
            &&& t.subrange(0, le - ls) == s.subrange(ls, le)
            &&& t.subrange(le - ls + 1, t.len() as int) == s.subrange(ds, de)
        },
{
    lemma_parsed_bounds(s);
    lemma_cfws_bounds(s, 0, 0);
    if let Scan::Done(p) = cfws_scan(s, 0, 0) {
        if p < s.len() && is_atext_char(s[p]) {
            lemma_datext_bounds(s, p + 1);
        } else if p < s.len() && s[p] == '"' {
            lemma_quoted_bounds(s, p + 1);
        }
        if let Scan::Done(le) = local_end(s, p) {
            lemma_cfws_bounds(s, le, 0);
            if let Scan::Done(a) = cfws_scan(s, le, 0) {
                if a < s.len() && s[a] == '@' {
                    lemma_cfws_bounds(s, a + 1, 0);
                    if let Scan::Done(r) = cfws_scan(s, a + 1, 0) {
                        if r < s.len() && is_atext_char(s[r]) {
                            let q = atext_run(s, r);
                            lemma_atext_run_step(s, r);
                            lemma_domain_bounds(s, q);
                            if let (Scan::Done(resume), de) = domain_more(s, q) {
                                if resume == s.len() {
                                    lemma_round_trip_parsed(s, p, le, r, de, a, q);
                                }
                            }
                        }
                    }
                }
            }
        }
    }
}

/// The work of `lemma_round_trip`, with the positions of the successful
/// match in hand: `ls`/`le` the local span, `ds`/`de` the domain span,
/// `a` the separator's position and `q` the end of the first domain
/// label's `atext` run.
#[verifier::rlimit(100)]
proof fn lemma_round_trip_parsed(s: Seq<char>, ls: int, le: int, ds: int, de: int, a: int, q: int)
    requires
        email_match(s) == (Outcome::Parsed { ls, le, ds, de }),
        cfws_scan(s, 0, 0) == Scan::Done(ls),
        local_end(s, ls) == Scan::Done(le),
        cfws_scan(s, le, 0) == Scan::Done(a),
        a < s.len() && s[a] == '@',
        cfws_scan(s, a + 1, 0) == Scan::Done(ds),
        ds < s.len() && is_atext_char(s[ds]),
        q == atext_run(s, ds),
        domain_more(s, q) == (Scan::Done(s.len() as int), de),
        0 <= ls < le <= a < ds < de <= s.len(),
        ds < q <= de,
    ensures
        ({
            let t = s.subrange(ls, le) + seq!['@'] + s.subrange(ds, de);
            &&& email_match(t) == (Outcome::Parsed {
                ls: 0,
                le: le - ls,
                ds: le - ls + 1,
                de: t.len() as int,
            })
            &&& t.subrange(0, le - ls) == s.subrange(ls, le)
            &&& t.subrange(le - ls + 1, t.len() as int) == s.subrange(ds, de)
        }),
{
    let lseg = s.subrange(ls, le);
    let dseg = s.subrange(ds, de);
    let t = lseg + seq!['@'] + dseg;
    let ll = le - ls;
    let dl = de - ds;
    assert(t.len() == ll + 1 + dl);
    assert forall|m: int| 0 <= m < ll implies #[trigger] t[m] == s[ls + m] by {
        assert(t[m] == lseg[m]);
    }
    assert(t[ll] == '@');
    assert forall|m: int| 0 <= m < dl implies #[trigger] t[ll + 1 + m] == s[ds + m] by {
        assert(t[ll + 1 + m] == dseg[m]);
    }
    // leading CFWS of t is empty: its first character opens the local-part
    assert(t[0] == s[ls + 0]);
    assert(cfws_scan(t, 0, 0) == Scan::Done(0));
    // the local-part token covers [0, ll)
    if is_atext_char(s[ls]) {
        assert(le == datext_end(s, ls + 1));
        assert forall|m: int| 0 <= m < le - (ls + 1) implies #[trigger] t[1 + m] == s[ls + 1
            + m] by {
            assert(t[(m + 1)] == s[ls + (m + 1)]);
        }
        lemma_datext_shift(s, t, ls + 1, 1);
        assert(local_end(t, 0) == Scan::Done(ll));
    } else {
        assert(s[ls] == '"');
        assert(quoted_scan(s, ls + 1) == Scan::Done(le));
        assert forall|m: int| 0 <= m < le - (ls + 1) implies #[trigger] t[1 + m] == s[ls + 1
            + m] by {
            assert(t[(m + 1)] == s[ls + (m + 1)]);
        }
        lemma_quoted_shift(s, t, ls + 1, 1, le);
        assert(local_end(t, 0) == Scan::Done(ll));
    }
    // between local-part and domain only the separator stands
    assert(cfws_scan(t, ll, 0) == Scan::Done(ll));
    assert(t[ll + 1] == s[ds + 0]);
    assert(cfws_scan(t, ll + 1, 0) == Scan::Done(ll + 1));
    // the first domain label's run carries over
    assert forall|m: int| 0 <= m < q - ds implies #[trigger] t[ll + 1 + m] == s[ds + m] by {}
    if q < de {
        lemma_atext_run_stop(s, ds);
        assert(t[ll + 1 + (q - ds)] == s[ds + (q - ds)]);
    }
    lemma_atext_run_shift(s, t, ds, ll + 1);
    let qk = ll + 1 + (q - ds);
    assert(atext_run(t, ll + 1) == qk);
    // and the rest of the domain, with the end of t for trailing CFWS
    assert forall|m: int| 0 <= m < de - q implies #[trigger] t[qk + m] == s[q + m] by {
        assert(t[ll + 1 + (q - ds + m)] == s[ds + (q - ds + m)]);
    }
    lemma_domain_shift(s, t, q, qk, de);
    assert(email_match(t) == (Outcome::Parsed {
        ls: 0,
        le: ll,
        ds: ll + 1,
        de: t.len() as int,
    }));
    assert(t.subrange(0, ll) =~= lseg);
    assert(t.subrange(ll + 1, t.len() as int) =~= dseg);
}

/// A `CFWS` run that consumes its whole sequence transplants to the
/// tail of another sequence when the remainder is carried over to that
/// sequence's very end: both scans finish exactly at their end of
/// input.
proof fn lemma_cfws_eoi_shift(s: Seq<char>, t: Seq<char>, i: int, k: int, d: int)
    requires
        0 <= i <= s.len(),
        0 <= k,
        d >= 0,
        cfws_scan(s, i, d) == Scan::Done(s.len() as int),
        k + (s.len() - i) == t.len(),
        forall|m: int| 0 <= m < s.len() - i ==> #[trigger] t[k + m] == s[i + m],
    ensures
        cfws_scan(t, k, d) == Scan::Done(t.len() as int),
    decreases s.len() - i,
{
    if i == s.len() {
        assert(d == 0);
    } else {
        assert(t[k + 0] == s[i + 0]);
        if d == 0 {
            if is_wsp_char(s[i]) {
                assert forall|m: int| 0 <= m < s.len() - (i + 1) implies #[trigger] t[k + 1 + m]
                    == s[i + 1 + m] by {
                    assert(t[k + (m + 1)] == s[i + (m + 1)]);
                }
                lemma_cfws_eoi_shift(s, t, i + 1, k + 1, 0);
            } else if s[i] == '\r' {
                assert(i + 1 < s.len() && s[i + 1] == '\n');
                assert(t[k + 1] == s[i + 1]);
                if i + 2 == s.len() {
                    assert(cfws_scan(t, k, 0) == Scan::Done(k + 2));
                } else {
                    assert(is_wsp_char(s[i + 2]));
                    assert(t[k + 2] == s[i + 2]);
                    assert forall|m: int| 0 <= m < s.len() - (i + 3) implies #[trigger] t[k + 3
                        + m] == s[i + 3 + m] by {
                        assert(t[k + (m + 3)] == s[i + (m + 3)]);
                    }
                    lemma_cfws_eoi_shift(s, t, i + 3, k + 3, 0);
                }
            } else {
                assert(s[i] == '(');
                assert forall|m: int| 0 <= m < s.len() - (i + 1) implies #[trigger] t[k + 1 + m]
                    == s[i + 1 + m] by {
                    assert(t[k + (m + 1)] == s[i + (m + 1)]);
                }
                lemma_cfws_eoi_shift(s, t, i + 1, k + 1, 1);
            }
        } else {
            if s[i] == ')' || s[i] == '(' || is_ctext_char(s[i]) {
                assert forall|m: int| 0 <= m < s.len() - (i + 1) implies #[trigger] t[k + 1 + m]
                    == s[i + 1 + m] by {
                    assert(t[k + (m + 1)] == s[i + (m + 1)]);
                }
                if s[i] == ')' {
                    lemma_cfws_eoi_shift(s, t, i + 1, k + 1, d - 1);
                } else if s[i] == '(' {
                    assert(d < MAX_COMMENT_DEPTH);
                    lemma_cfws_eoi_shift(s, t, i + 1, k + 1, d + 1);
                } else {
                    lemma_cfws_eoi_shift(s, t, i + 1, k + 1, d);
                }
            } else {
                assert(s[i] == '\\' && i + 1 < s.len() && is_quotable(s[i + 1]));
                assert(t[k + 1] == s[i + 1]);
                assert forall|m: int| 0 <= m < s.len() - (i + 2) implies #[trigger] t[k + 2 + m]
                    == s[i + 2 + m] by {
                    assert(t[k + (m + 2)] == s[i + (m + 2)]);
                }
                lemma_cfws_eoi_shift(s, t, i + 2, k + 2, d);
            }
        }
    }
}

/// A `CFWS` run that consumes a whole segment and ends on a closing
/// parenthesis splices into a larger sequence: scanning the embedded
/// copy runs through the segment and then continues, at depth 0, with
/// whatever follows it.
proof fn lemma_cfws_segment(c: Seq<char>, u: Seq<char>, j: int, k: int, d: int)
    requires
        0 <= j <= c.len(),
        0 <= k,
        d >= 0,
        c.len() >= 1,
        c[c.len() - 1] == ')',
        cfws_scan(c, j, d) == Scan::Done(c.len() as int),
        k + (c.len() - j) <= u.len(),
        forall|m: int| 0 <= m < c.len() - j ==> #[trigger] u[k + m] == c[j + m],
    ensures
        cfws_scan(u, k, d) == cfws_scan(u, k + (c.len() - j), 0),
    decreases c.len() - j,
{
    if j == c.len() {
        assert(d == 0);
    } else {
        assert(u[k + 0] == c[j + 0]);
        if d == 0 {
            if is_wsp_char(c[j]) {
                assert forall|m: int| 0 <= m < c.len() - (j + 1) implies #[trigger] u[k + 1 + m]
                    == c[j + 1 + m] by {
                    assert(u[k + (m + 1)] == c[j + (m + 1)]);
                }
                lemma_cfws_segment(c, u, j + 1, k + 1, 0);
            } else if c[j] == '\r' {
                assert(j + 1 < c.len() && c[j + 1] == '\n');
                if j + 2 == c.len() {
                    assert(c[c.len() - 1] == ')' && c[j + 1] == '\n');
                    assert(false);
                } else {
                    assert(is_wsp_char(c[j + 2]));
                    assert(u[k + 1] == c[j + 1]);
                    assert(u[k + 2] == c[j + 2]);
                    assert forall|m: int| 0 <= m < c.len() - (j + 3) implies #[trigger] u[k + 3
                        + m] == c[j + 3 + m] by {
                        assert(u[k + (m + 3)] == c[j + (m + 3)]);
                    }
                    lemma_cfws_segment(c, u, j + 3, k + 3, 0);
                }
            } else {
                assert(c[j] == '(');
                assert forall|m: int| 0 <= m < c.len() - (j + 1) implies #[trigger] u[k + 1 + m]
                    == c[j + 1 + m] by {
                    assert(u[k + (m + 1)] == c[j + (m + 1)]);
                }
                lemma_cfws_segment(c, u, j + 1, k + 1, 1);
            }
        } else {
            if c[j] == ')' || c[j] == '(' || is_ctext_char(c[j]) {
                assert forall|m: int| 0 <= m < c.len() - (j + 1) implies #[trigger] u[k + 1 + m]
                    == c[j + 1 + m] by {
                    assert(u[k + (m + 1)] == c[j + (m + 1)]);
                }
                if c[j] == ')' {
                    lemma_cfws_segment(c, u, j + 1, k + 1, d - 1);
                } else if c[j] == '(' {
                    assert(d < MAX_COMMENT_DEPTH);
                    lemma_cfws_segment(c, u, j + 1, k + 1, d + 1);
                } else {
                    lemma_cfws_segment(c, u, j + 1, k + 1, d);
                }
            } else {
                assert(c[j] == '\\' && j + 1 < c.len() && is_quotable(c[j + 1]));
                assert(u[k + 1] == c[j + 1]);
                assert forall|m: int| 0 <= m < c.len() - (j + 2) implies #[trigger] u[k + 2 + m]
                    == c[j + 2 + m] by {
                    assert(u[k + (m + 2)] == c[j + (m + 2)]);
                }
                lemma_cfws_segment(c, u, j + 2, k + 2, d);
            }
        }
    }
}

/// A fully consumed domain transplants when its whole remainder —
/// trailing `CFWS` included — is carried to the tail of another
/// sequence ending with it.
proof fn lemma_domain_suffix_shift(s: Seq<char>, t: Seq<char>, q: int, k: int, de: int)
    requires
        0 <= q <= s.len(),
        0 <= k,
        domain_more(s, q) == (Scan::Done(s.len() as int), de),
        k + (s.len() - q) == t.len(),
        forall|m: int| 0 <= m < s.len() - q ==> #[trigger] t[k + m] == s[q + m],
    ensures
        domain_more(t, k) == (Scan::Done(t.len() as int), k + (de - q)),
    decreases s.len() - q,
{
    lemma_domain_bounds(s, q);
    lemma_cfws_bounds(s, q, 0);
    if let Scan::Done(p) = cfws_scan(s, q, 0) {
        if p < s.len() && s[p] == '.' {
            lemma_cfws_bounds(s, p + 1, 0);
            if let Scan::Done(r) = cfws_scan(s, p + 1, 0) {
                let q2 = atext_run(s, r);
                lemma_atext_run_bounds(s, r);
                if q2 > r {
                    assert(domain_more(s, q2) == (Scan::Done(s.len() as int), de));
                    lemma_domain_bounds(s, q2);
                    assert(p < r < q2 <= de);
                    lemma_cfws_shift(s, t, q, k, 0, p);
                    let pk = k + (p - q);
                    assert(t[k + (p - q)] == s[q + (p - q)]);
                    assert forall|m: int| 0 <= m <= r - (p + 1) implies #[trigger] t[pk + 1 + m]
                        == s[p + 1 + m] by {
                        assert(t[k + (p + 1 + m - q)] == s[q + (p + 1 + m - q)]);
                    }
                    lemma_cfws_shift(s, t, p + 1, pk + 1, 0, r);
                    let rk = k + (r - q);
                    assert forall|m: int| 0 <= m < q2 - r implies #[trigger] t[rk + m] == s[r
                        + m] by {
                        assert(t[k + (r + m - q)] == s[q + (r + m - q)]);
                    }
                    if q2 < s.len() {
                        lemma_atext_run_stop(s, r);
                        assert(t[k + (q2 - q)] == s[q + (q2 - q)]);
                    }
                    lemma_atext_run_shift(s, t, r, rk);
                    let q2k = k + (q2 - q);
                    assert(atext_run(t, rk) == q2k);
                    assert forall|m: int| 0 <= m < s.len() - q2 implies #[trigger] t[q2k + m]
                        == s[q2 + m] by {
                        assert(t[k + (q2 + m - q)] == s[q + (q2 + m - q)]);
                    }
                    lemma_domain_suffix_shift(s, t, q2, q2k, de);
                    assert(cfws_scan(t, k, 0) == Scan::Done(pk));
                    assert(t[pk] == '.') by {
                        assert(t[k + (p - q)] == s[q + (p - q)]);
                    }
                    assert(domain_more(t, k) == domain_more(t, q2k));
                } else {
                    assert(false);
                }
            } else {
                assert(false);
            }
        } else {
            assert(de == q && p == s.len());
            lemma_cfws_eoi_shift(s, t, q, k, 0);
            assert(cfws_scan(t, k, 0) == Scan::Done(t.len() as int));
        }
    } else {
        assert(false);
    }
}

/// Whether `c` is a run of comments and folding whitespace that opens
/// with a parenthesis, closes with one, and is consumed whole by the
/// `CFWS` scanner — a parenthesized comment is the simplest instance.
pub open spec fn is_comment_run(c: Seq<char>) -> bool {
    &&& c.len() >= 2
    &&& c[0] == '('
    &&& c[c.len() - 1] == ')'
    &&& cfws_scan(c, 0, 0) == Scan::Done(c.len() as int)
}

/// Comments need no separating whitespace: inserting a comment run
/// directly after the local-part of a successfully parsed address
/// leaves the match a success with both extracted values unchanged —
/// the comment falls outside the local and domain spans, while
/// whitespace and comments between domain labels stay inside the
/// domain value as before.
#[verifier::rlimit(100)]
pub proof fn lemma_comment_adjacent_to_local(s: Seq<char>, c: Seq<char>)
    requires
        is_comment_run(c),
    ensures
        email_match(s) matches Outcome::Parsed { ls, le, ds, de } ==> {
            let u = s.subrange(0, le) + c + s.subrange(le, s.len() as int);
            &&& email_match(u) == (Outcome::Parsed {
                ls,
                le,
                ds: ds + c.len(),
                de: de + c.len(),
            })
            &&& u.subrange(ls, le) == s.subrange(ls, le)
            &&& u.subrange(ds + c.len(), de + c.len()) == s.subrange(ds, de)
        },
{
    lemma_parsed_bounds(s);
    lemma_cfws_bounds(s, 0, 0);
    if let Scan::Done(p) = cfws_scan(s, 0, 0) {
        if p < s.len() && is_atext_char(s[p]) {
            lemma_datext_bounds(s, p + 1);
        } else if p < s.len() && s[p] == '"' {
            lemma_quoted_bounds(s, p + 1);
        }
        if let Scan::Done(le) = local_end(s, p) {
            lemma_cfws_bounds(s, le, 0);
            if let Scan::Done(a) = cfws_scan(s, le, 0) {
                if a < s.len() && s[a] == '@' {
                    lemma_cfws_bounds(s, a + 1, 0);
                    if let Scan::Done(r) = cfws_scan(s, a + 1, 0) {
                        if r < s.len() && is_atext_char(s[r]) {
                            let q = atext_run(s, r);
                            lemma_atext_run_step(s, r);
                            lemma_domain_bounds(s, q);
                            if let (Scan::Done(resume), de) = domain_more(s, q) {
                                if resume == s.len() {
                                    lemma_comment_adjacent_parsed(s, c, p, le, r, de, a, q);
                                }
                            }
                        }
                    }
                }
            }
        }
    }
}

/// The work of `lemma_comment_adjacent_to_local`, with the positions of
/// the successful match in hand.
#[verifier::rlimit(100)]
proof fn lemma_comment_adjacent_parsed(
    s: Seq<char>,
    c: Seq<char>,
    ls: int,
    le: int,
    ds: int,
    de: int,
    a: int,
    q: int,
)
    requires
        is_comment_run(c),
        email_match(s) == (Outcome::Parsed { ls, le, ds, de }),
        cfws_scan(s, 0, 0) == Scan::Done(ls),
        local_end(s, ls) == Scan::Done(le),
        cfws_scan(s, le, 0) == Scan::Done(a),
        a < s.len() && s[a] == '@',
        cfws_scan(s, a + 1, 0) == Scan::Done(ds),
        ds < s.len() && is_atext_char(s[ds]),
        q == atext_run(s, ds),
        domain_more(s, q) == (Scan::Done(s.len() as int), de),
        0 <= ls < le <= a < ds < de <= s.len(),
        ds < q <= de,
    ensures
        ({
            let u = s.subrange(0, le) + c + s.subrange(le, s.len() as int);
            &&& email_match(u) == (Outcome::Parsed {
                ls,
                le,
                ds: ds + c.len(),
                de: de + c.len(),
            })
            &&& u.subrange(ls, le) == s.subrange(ls, le)
            &&& u.subrange(ds + c.len(), de + c.len()) == s.subrange(ds, de)
        }),
{
    let u = s.subrange(0, le) + c + s.subrange(le, s.len() as int);
    let cl = c.len() as int;
    assert(u.len() == s.len() + cl);
    assert forall|m: int| 0 <= m < le implies #[trigger] u[m] == s[m] by {
        assert(u[m] == s.subrange(0, le)[m]);
    }
    assert forall|m: int| 0 <= m < cl implies #[trigger] u[le + m] == c[m] by {}
    assert forall|m: int| 0 <= m < s.len() - le implies #[trigger] u[le + cl + m] == s[le + m] by {
        assert(u[le + cl + m] == s.subrange(le, s.len() as int)[m]);
    }
    // up to the end of the local-part, u reads as s does
    lemma_cfws_shift(s, u, 0, 0, 0, ls);
    assert(cfws_scan(u, 0, 0) == Scan::Done(ls));
    if is_atext_char(s[ls]) {
        assert(le == datext_end(s, ls + 1));
        assert forall|m: int| 0 <= m < le - (ls + 1) implies #[trigger] u[ls + 1 + m] == s[ls + 1
            + m] by {
            assert(u[(ls + 1 + m)] == s[(ls + 1 + m)]);
        }
        assert(u[le + 0] == c[0]);
        lemma_datext_shift(s, u, ls + 1, ls + 1);
        assert(local_end(u, ls) == Scan::Done(le));
    } else {
        assert(s[ls] == '"');
        assert(quoted_scan(s, ls + 1) == Scan::Done(le));
        assert forall|m: int| 0 <= m < le - (ls + 1) implies #[trigger] u[ls + 1 + m] == s[ls + 1
            + m] by {
            assert(u[(ls + 1 + m)] == s[(ls + 1 + m)]);
        }
        lemma_quoted_shift(s, u, ls + 1, ls + 1, le);
        assert(local_end(u, ls) == Scan::Done(le));
    }
    // the inserted comment run is swallowed by the CFWS after the local-part,
    // which then continues as it did in s until the separator
    lemma_cfws_segment(c, u, 0, le, 0);
    assert(cfws_scan(u, le, 0) == cfws_scan(u, le + cl, 0));
    assert forall|m: int| 0 <= m <= a - le implies #[trigger] u[le + cl + m] == s[le + m] by {}
    lemma_cfws_shift(s, u, le, le + cl, 0, a);
    assert(cfws_scan(u, le + cl, 0) == Scan::Done(a + cl));
    assert(u[le + cl + (a - le)] == s[le + (a - le)]);
    assert(u[a + cl] == '@');
    // and from the separator on, everything stands shifted by the run's length
    assert forall|m: int| 0 <= m <= ds - (a + 1) implies #[trigger] u[a + 1 + cl + m] == s[a + 1
        + m] by {
        assert(u[le + cl + (a + 1 + m - le)] == s[le + (a + 1 + m - le)]);
    }
    lemma_cfws_shift(s, u, a + 1, a + 1 + cl, 0, ds);
    assert(cfws_scan(u, a + 1 + cl, 0) == Scan::Done(ds + cl));
    assert(u[le + cl + (ds - le)] == s[le + (ds - le)]);
    assert(u[ds + cl] == s[ds]);
    assert forall|m: int| 0 <= m < q - ds implies #[trigger] u[ds + cl + m] == s[ds + m] by {
        assert(u[le + cl + (ds + m - le)] == s[le + (ds + m - le)]);
    }
    if q < s.len() {
        lemma_atext_run_stop(s, ds);
        assert(u[le + cl + (q - le)] == s[le + (q - le)]);
        assert(u[ds + cl + (q - ds)] == s[q]);
    }
    lemma_atext_run_shift(s, u, ds, ds + cl);
    assert(atext_run(u, ds + cl) == q + cl);
    assert forall|m: int| 0 <= m < s.len() - q implies #[trigger] u[q + cl + m] == s[q + m] by {
        assert(u[le + cl + (q + m - le)] == s[le + (q + m - le)]);
    }
    lemma_domain_suffix_shift(s, u, q, q + cl, de);
    assert(domain_more(u, q + cl) == (Scan::Done(u.len() as int), de + cl));
    assert(email_match(u) == (Outcome::Parsed { ls, le, ds: ds + cl, de: de + cl }));
    assert(u.subrange(ls, le) =~= s.subrange(ls, le));
    assert(u.subrange(ds + cl, de + cl) =~= s.subrange(ds, de));
}

proof fn lemma_open_parens_deep(s: Seq<char>, d: int)
    requires
        1 <= d <= MAX_COMMENT_DEPTH,
        MAX_COMMENT_DEPTH < s.len(),
        forall|j: int| 0 <= j <= MAX_COMMENT_DEPTH ==> #[trigger] s[j] == '(',
    ensures
        cfws_scan(s, d, d) == Scan::Deep(MAX_COMMENT_DEPTH as int),
    decreases MAX_COMMENT_DEPTH - d,
{
    if d < MAX_COMMENT_DEPTH {
        lemma_open_parens_deep(s, d + 1);
    }
}

/// The recursion depth guard: however large the input, a run of more
/// than `MAX_COMMENT_DEPTH` opening parentheses is answered with the
/// dedicated depth failure, positioned at the first parenthesis past
/// the cap — never accepted and never matched further.
pub proof fn lemma_depth_guard(s: Seq<char>)
    requires
        MAX_COMMENT_DEPTH < s.len(),
        forall|j: int| 0 <= j <= MAX_COMMENT_DEPTH ==> #[trigger] s[j] == '(',
    ensures
        email_match(s) == (Outcome::DepthLimit { at: MAX_COMMENT_DEPTH as int }),
{
    lemma_open_parens_deep(s, 1);
    assert(cfws_scan(s, 0, 0) == cfws_scan(s, 1, 1));
}

} // verus!
