//! The public result and error types, and the entry point `parse`.

use vstd::prelude::*;
use vstd::string::StrSliceExecFns;
use vstd::string::StringExecFns;

use crate::engine::EmailParser;
use crate::engine::MatchOutcome;
use crate::scan::email_match;
use crate::scan::lemma_parsed_bounds;
use crate::scan::Expected;
use crate::scan::Outcome;

verus! {

/// An email address split into its two extracted parts: the exact text
/// matched by the `local-part` rule and by the `domain` rule.
#[derive(Debug)]
pub struct EmailAddress {
    /// Local part of the email address.
    pub local: String,
    /// Domain part of the email address.
    pub domain_part: String,
}

/// Why a candidate string was rejected.
#[derive(Clone, Copy, Debug, PartialEq, Eq, Structural)]
pub enum EmailParseError {
    /// No grammar alternative could continue at `pos`; `expected` names
    /// the production being attempted there.
    GrammarMismatch { pos: usize, expected: Expected },
    /// A comment at `pos` was nested beyond the configured depth cap.
    RecursionLimitExceeded { pos: usize },
}

/// The input as a vector of its characters.
fn text_chars(s: &str) -> (v: Vec<char>)
    ensures
        v@ == s@,
{
    let n = s.unicode_len();
    let mut v: Vec<char> = Vec::new();
    let mut i: usize = 0;
    while i < n
        invariant
            i <= n,
            n == s@.len(),
            v@ =~= s@.subrange(0, i as int),
        decreases n - i,
    {
        let c = s.get_char(i);
        v.push(c);
        i = i + 1;
    }
    proof {
        assert(v@ =~= s@);
    }
    v
}

/// The decimal digit character for `d` in `0 ..= 9`.
pub open spec fn dec_digit(d: int) -> char {
    if d == 0 {
        '0'
    } else if d == 1 {
        '1'
    } else if d == 2 {
        '2'
    } else if d == 3 {
        '3'
    } else if d == 4 {
        '4'
    } else if d == 5 {
        '5'
    } else if d == 6 {
        '6'
    } else if d == 7 {
        '7'
    } else if d == 8 {
        '8'
    } else {
        '9'
    }
}

/// The decimal rendering of `n`, most significant digit first.
pub open spec fn dec_digits(n: int) -> Seq<char>
    decreases n,
{
    if n < 10 {
        seq![dec_digit(n)]
    } else {
        dec_digits(n / 10).push(dec_digit(n % 10))
    }
}

fn digit_str(d: usize) -> (r: &'static str)
    requires
        d < 10,
    ensures
        r@ =~= seq![dec_digit(d as int)],
{
    if d == 0 {
        proof {
            reveal_strlit("0");
        }
        "0"
    } else if d == 1 {
        proof {
            reveal_strlit("1");
        }
        "1"
    } else if d == 2 {
        proof {
            reveal_strlit("2");
        }
        "2"
    } else if d == 3 {
        proof {
            reveal_strlit("3");
        }
        "3"
    } else if d == 4 {
        proof {
            reveal_strlit("4");
        }
        "4"
    } else if d == 5 {
        proof {
            reveal_strlit("5");
        }
        "5"
    } else if d == 6 {
        proof {
            reveal_strlit("6");
        }
        "6"
    } else if d == 7 {
        proof {
            reveal_strlit("7");
        }
        "7"
    } else if d == 8 {
        proof {
            reveal_strlit("8");
        }
        "8"
    } else {
        proof {
            reveal_strlit("9");
        }
        "9"
    }
}

fn push_digits(out: &mut String, n: usize)
    ensures
        final(out)@ == old(out)@ + dec_digits(n as int),
    decreases n,
{
    if n < 10 {
        out.append(digit_str(n));
        proof {
            assert(out@ =~= old(out)@ + dec_digits(n as int));
        }
    } else {
        push_digits(out, n / 10);
        out.append(digit_str(n % 10));
        proof {
            assert(out@ =~= old(out)@ + dec_digits(n as int));
        }
    }
}

/// The short name of a production, as it appears in messages.
pub open spec fn expected_text(w: Expected) -> Seq<char> {
    match w {
        Expected::CommentText => "comment content"@,
        Expected::LocalPart => "a local-part"@,
        Expected::AtSign => "the separator '@'"@,
        Expected::DomainText => "a domain"@,
        Expected::EndOfInput => "the end of the input"@,
    }
}

/// The rendered message of an error.
pub open spec fn message_text(e: EmailParseError) -> Seq<char> {
    match e {
        EmailParseError::GrammarMismatch { pos, expected } => "Parsing error: expected "@
            + expected_text(expected) + " at offset "@ + dec_digits(pos as int),
        EmailParseError::RecursionLimitExceeded { pos } => "Parsing error: comment nesting exceeds the depth limit at offset "@
            + dec_digits(pos as int),
    }
}

fn expected_str(w: Expected) -> (r: &'static str)
    ensures
        r@ == expected_text(w),
{
    match w {
        Expected::CommentText => "comment content",
        Expected::LocalPart => "a local-part",
        Expected::AtSign => "the separator '@'",
        Expected::DomainText => "a domain",
        Expected::EndOfInput => "the end of the input",
    }
}

impl EmailParseError {
    /// A human-readable account of the failure, offset included.
    pub fn message(&self) -> (m: String)
        ensures
            m@ == message_text(*self),
    {
        match self {
            EmailParseError::GrammarMismatch { pos, expected } => {
                let mut m = "Parsing error: expected ".to_owned();
                m.append(expected_str(*expected));
                m.append(" at offset ");
                push_digits(&mut m, *pos);
                proof {
                    assert(m@ =~= message_text(*self));
                }
                m
            },
            EmailParseError::RecursionLimitExceeded { pos } => {
                let mut m =
                    "Parsing error: comment nesting exceeds the depth limit at offset ".to_owned();
                push_digits(&mut m, *pos);
                proof {
                    assert(m@ =~= message_text(*self));
                }
                m
            },
        }
    }
}

impl EmailAddress {
    /// Matches `input` against the anchored `email` production.  On
    /// success the returned parts are exactly the substrings of the
    /// input covered by the `local-part` and `domain` spans; on failure
    /// the error carries the deepest mismatch position and context, or
    /// reports that comment nesting passed the depth cap.
    pub fn parse(input: &str) -> (r: Result<EmailAddress, EmailParseError>)
        ensures
            (email_match(input@) matches Outcome::Parsed { ls, le, ds, de } ==> r matches Ok(e)
                && e.local@ == input@.subrange(ls, le) && e.domain_part@ == input@.subrange(
                ds,
                de,
            )),
            (email_match(input@) matches Outcome::NoParse { at, what } ==> r matches Err(err)
                && err matches EmailParseError::GrammarMismatch { pos, expected } && pos as int
                == at && expected == what),
            (email_match(input@) matches Outcome::DepthLimit { at } ==> r matches Err(err)
                && err matches EmailParseError::RecursionLimitExceeded { pos } && pos as int
                == at),
    {
        let v = text_chars(input);
        let m = EmailParser::scan_email(&v);
        match m {
            MatchOutcome::Parsed { local_from, local_to, domain_from, domain_to } => {
                proof {
                    lemma_parsed_bounds(input@);
                }
                let local = input.substring_char(local_from, local_to).to_owned();
                let domain_part = input.substring_char(domain_from, domain_to).to_owned();
                Ok(EmailAddress { local, domain_part })
            },
            MatchOutcome::Mismatch { at, what } => {
                Err(EmailParseError::GrammarMismatch { pos: at, expected: what })
            },
            MatchOutcome::DepthLimit { at } => {
                Err(EmailParseError::RecursionLimitExceeded { pos: at })
            },
        }
    }
}

} // verus!
