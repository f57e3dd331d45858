use vstd::prelude::*;

use super::model::{Json, ParseError};

verus! {

// ---------------------------------------------------------------------------
// Lexical specification
// ---------------------------------------------------------------------------

pub open spec fn is_blank(c: char) -> bool {
    c == ' ' || c == '\t' || c == '\n' || c == '\r'
}

/// The first position at or after `i` that holds no blank (the end of `s` if there is none).
pub open spec fn skip_blanks(s: Seq<char>, i: nat) -> nat
    decreases s.len() - i,
{
    if i < s.len() && is_blank(s[i as int]) {
        skip_blanks(s, i + 1)
    } else {
        i
    }
}

/// The first position at or after `i` that holds `"` (the end of `s` if there is none).
pub open spec fn find_quote(s: Seq<char>, i: nat) -> nat
    decreases s.len() - i,
{
    if i < s.len() && s[i as int] != '"' {
        find_quote(s, i + 1)
    } else {
        i
    }
}

pub open spec fn is_digit(c: char) -> bool {
    '0' <= c && c <= '9'
}

pub open spec fn is_number_char(c: char) -> bool {
    c == '.' || is_digit(c)
}

/// The end of the run of digits and points that starts at `i`.
pub open spec fn number_end(s: Seq<char>, i: nat) -> nat
    decreases s.len() - i,
{
    if i < s.len() && is_number_char(s[i as int]) {
        number_end(s, i + 1)
    } else {
        i
    }
}

pub open spec fn digit_value(c: char) -> u8 {
    (c as int - '0' as int) as u8
}

pub open spec fn digit_values(cs: Seq<char>) -> Seq<u8> {
    cs.map_values(|c: char| digit_value(c))
}

/// `s[i..i + 4]` spells `a b c d`.
pub open spec fn word_at(s: Seq<char>, i: nat, a: char, b: char, c: char, d: char) -> bool {
    &&& i + 4 <= s.len()
    &&& s[i as int] == a
    &&& s[i + 1int] == b
    &&& s[i + 2int] == c
    &&& s[i + 3int] == d
}

pub proof fn lemma_skip_blanks(s: Seq<char>, i: nat)
    ensures
        i <= skip_blanks(s, i),
        skip_blanks(s, i) <= s.len() || skip_blanks(s, i) == i,
        skip_blanks(s, i) < s.len() ==> !is_blank(s[skip_blanks(s, i) as int]),
    decreases s.len() - i,
{
    if i < s.len() && is_blank(s[i as int]) {
        lemma_skip_blanks(s, i + 1);
    }
}

pub proof fn lemma_find_quote(s: Seq<char>, i: nat)
    ensures
        i <= find_quote(s, i),
        find_quote(s, i) <= s.len() || find_quote(s, i) == i,
        find_quote(s, i) < s.len() ==> s[find_quote(s, i) as int] == '"',
        forall|k: int| i <= k < find_quote(s, i) ==> s[k] != '"',
    decreases s.len() - i,
{
    if i < s.len() && s[i as int] != '"' {
        lemma_find_quote(s, i + 1);
    }
}

pub proof fn lemma_number_end(s: Seq<char>, i: nat)
    ensures
        i <= number_end(s, i),
        number_end(s, i) <= s.len() || number_end(s, i) == i,
        number_end(s, i) < s.len() ==> !is_number_char(s[number_end(s, i) as int]),
        forall|k: int| i <= k < number_end(s, i) ==> is_number_char(s[k]),
    decreases s.len() - i,
{
    if i < s.len() && is_number_char(s[i as int]) {
        lemma_number_end(s, i + 1);
    }
}

// ---------------------------------------------------------------------------
// Grammar specification: each function says what the parser makes of `s` at `i`,
// and where it stops, or which error it reports.
// ---------------------------------------------------------------------------

pub open spec fn spec_parse_string(s: Seq<char>, i: nat) -> Result<(Seq<char>, nat), ParseError> {
    if i >= s.len() {
        Err(ParseError::UnexpectedEnd)
    } else if s[i as int] != '"' {
        Err(ParseError::ExpectedOpenQuote)
    } else {
        let e = find_quote(s, i + 1);
        if e >= s.len() {
            Err(ParseError::ExpectedCloseQuote)
        } else {
            Ok((s.subrange(i + 1int, e as int), e + 1))
        }
    }
}

/// Two points in the run `s[i..e]`.
pub open spec fn has_two_points(s: Seq<char>, i: nat, e: nat) -> bool {
    exists|a: int, b: int| i <= a < b < e && s[a] == '.' && s[b] == '.'
}

pub open spec fn has_point(s: Seq<char>, i: nat, e: nat) -> bool {
    exists|p: int| i <= p < e && s[p] == '.'
}

pub open spec fn spec_parse_number(s: Seq<char>, i: nat) -> Result<((Seq<u8>, Seq<u8>), nat), ParseError> {
    if i >= s.len() {
        Err(ParseError::UnexpectedEnd)
    } else {
        let e = number_end(s, i);
        if has_two_points(s, i, e) {
            Err(ParseError::RepeatedPoint)
        } else if has_point(s, i, e) {
            let p = choose|p: int| i <= p < e && s[p] == '.';
            Ok(((digit_values(s.subrange(i as int, p)), digit_values(s.subrange(p + 1, e as int))), e))
        } else {
            Ok(((digit_values(s.subrange(i as int, e as int)), Seq::empty()), e))
        }
    }
}

pub open spec fn spec_parse_val(s: Seq<char>, i: nat) -> Result<(Json, nat), ParseError> {
    if i >= s.len() {
        Err(ParseError::UnexpectedEnd)
    } else if s[i as int] == '"' {
        match spec_parse_string(s, i) {
            Ok((t, j)) => Ok((Json::Str(t), j)),
            Err(e) => Err(e),
        }
    } else if word_at(s, i, 'n', 'u', 'l', 'l') {
        Ok((Json::Null, i + 4))
    } else if word_at(s, i, 't', 'r', 'u', 'e') {
        Ok((Json::Bool(true), i + 4))
    } else if i + 5 <= s.len() && word_at(s, i, 'f', 'a', 'l', 's') {
        Ok((Json::Bool(false), i + 5))
    } else {
        match spec_parse_number(s, i) {
            Ok((n, j)) => Ok((Json::Number(n.0, n.1), j)),
            Err(e) => Err(e),
        }
    }
}

pub open spec fn spec_parse_object(s: Seq<char>, i: nat) -> Result<(Json, nat), ParseError>
    decreases s.len() - i, 2int,
{
    let j = skip_blanks(s, i);
    if j >= s.len() {
        Err(ParseError::UnexpectedEnd)
    } else {
        proof {
            lemma_skip_blanks(s, i);
        }
        if s[j as int] == '{' {
            spec_parse_map(s, j)
        } else if s[j as int] == '[' {
            spec_parse_vec(s, j)
        } else {
            spec_parse_val(s, j)
        }
    }
}

pub open spec fn spec_parse_map(s: Seq<char>, i: nat) -> Result<(Json, nat), ParseError>
    decreases s.len() - i, 1int,
{
    if i >= s.len() {
        Err(ParseError::UnexpectedEnd)
    } else if s[i as int] != '{' {
        Err(ParseError::ExpectedLeftBrace)
    } else {
        spec_parse_members(s, i + 1, Map::empty())
    }
}

/// The members of an object from `i` on, after those already gathered in `acc`.
pub open spec fn spec_parse_members(s: Seq<char>, i: nat, acc: Map<Seq<char>, Json>) -> Result<(Json, nat), ParseError>
    decreases s.len() - i, 1int,
{
    let j = skip_blanks(s, i);
    if j >= s.len() {
        Err(ParseError::UnexpectedEnd)
    } else if s[j as int] == '}' {
        Ok((Json::Object(acc), j + 1))
    } else {
        proof {
            lemma_skip_blanks(s, i);
        }
        match spec_parse_pair(s, j) {
            Err(e) => Err(e),
            Ok((kv, k)) => {
                let acc2 = acc.insert(kv.0, kv.1);
                let l = skip_blanks(s, k);
                proof {
                    lemma_skip_blanks(s, k);
                }
                // `k < j` never holds (see `lemma_object_progress`); the test lets the
                // definition's termination follow from its text alone.
                if k < j || l >= s.len() {
                    Err(ParseError::UnexpectedEnd)
                } else if s[l as int] == ',' {
                    spec_parse_members(s, l + 1, acc2)
                } else if s[l as int] == '}' {
                    Ok((Json::Object(acc2), l + 1))
                } else {
                    Err(ParseError::ExpectedComma)
                }
            },
        }
    }
}

pub open spec fn spec_parse_pair(s: Seq<char>, i: nat) -> Result<((Seq<char>, Json), nat), ParseError>
    decreases s.len() - i, 0int,
{
    match spec_parse_string(s, i) {
        Err(e) => Err(e),
        Ok((key, j)) => {
            proof {
                lemma_find_quote(s, i + 1);
            }
            if j >= s.len() {
                Err(ParseError::UnexpectedEnd)
            } else if s[j as int] != ':' {
                Err(ParseError::ExpectedColon)
            } else {
                match spec_parse_object(s, j + 1) {
                    Err(e) => Err(e),
                    Ok((v, k)) => Ok(((key, v), k)),
                }
            }
        },
    }
}

pub open spec fn spec_parse_vec(s: Seq<char>, i: nat) -> Result<(Json, nat), ParseError>
    decreases s.len() - i, 1int,
{
    if i >= s.len() {
        Err(ParseError::UnexpectedEnd)
    } else if s[i as int] != '[' {
        Err(ParseError::ExpectedLeftBracket)
    } else {
        spec_parse_items(s, i + 1, Seq::empty())
    }
}

/// The elements of an array from `i` on, after those already gathered in `acc`.
pub open spec fn spec_parse_items(s: Seq<char>, i: nat, acc: Seq<Json>) -> Result<(Json, nat), ParseError>
    decreases s.len() - i, 3int,
{
    let j = skip_blanks(s, i);
    if j >= s.len() {
        Err(ParseError::UnexpectedEnd)
    } else if s[j as int] == ']' {
        Ok((Json::Array(acc), j + 1))
    } else {
        proof {
            lemma_skip_blanks(s, i);
        }
        match spec_parse_object(s, j) {
            Err(e) => Err(e),
            Ok((v, k)) => {
                let l = skip_blanks(s, k);
                proof {
                    lemma_skip_blanks(s, k);
                }
                // `k < j` never holds (see `lemma_object_progress`); the test lets the
                // definition's termination follow from its text alone.
                if k < j || l >= s.len() {
                    Err(ParseError::UnexpectedEnd)
                } else if s[l as int] == ',' {
                    spec_parse_items(s, l + 1, acc.push(v))
                } else if s[l as int] == ']' {
                    Ok((Json::Array(acc.push(v)), l + 1))
                } else {
                    Err(ParseError::ExpectedComma)
                }
            },
        }
    }
}

/// What `parse` makes of a whole document.
pub open spec fn spec_parse(s: Seq<char>) -> Result<Json, ParseError> {
    match spec_parse_object(s, 0) {
        Ok((v, _)) => Ok(v),
        Err(e) => Err(e),
    }
}



} // verus!
