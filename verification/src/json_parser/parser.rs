use vstd::prelude::*;

use super::grammar::{
    digit_values, find_quote, has_point, has_two_points, is_blank, is_digit, is_number_char,
    lemma_find_quote, lemma_number_end, lemma_skip_blanks, number_end, skip_blanks, spec_parse,
    spec_parse_items, spec_parse_map, spec_parse_members, spec_parse_number, spec_parse_object,
    spec_parse_pair, spec_parse_string, spec_parse_val, spec_parse_vec, word_at,
};
use super::model::{
    entries_map, item_views, keys_distinct, lemma_entries_map_update, lemma_item_views,
    lemma_jobject_view, lemma_pair_entries, pair_entries, Jmap, Jnumber, Jobject, Jpair, Json, Jval, Jvec,
    ParseError,
};

verus! {

broadcast use {lemma_item_views, lemma_pair_entries, lemma_jobject_view};

// ---------------------------------------------------------------------------
// Executable parser
// ---------------------------------------------------------------------------

/// `String::push` appends one character, as std documents it.
pub assume_specification[ std::string::String::push ](string: &mut std::string::String, ch: char)
    ensures
        final(string)@ == old(string)@.push(ch),
;

/// Whether `c` is a blank: a space, a tab, a line feed or a carriage return.
pub fn is_blank_char(c: char) -> (flag: bool)
    ensures
        flag == is_blank(c),
{
    let blank_chars: [char; 4] = [' ', '\t', '\n', '\r'];
    let mut flag = false;
    let mut k: usize = 0;
    while k < 4
        invariant
            k <= 4,
            blank_chars@ == seq![' ', '\t', '\n', '\r'],
            flag == (exists|m: int| 0 <= m < k && blank_chars@[m] == c),
        decreases 4 - k,
    {
        if blank_chars[k] == c {
            flag = true;
        }
        k = k + 1;
    }
    flag
}

/// Reads a string that starts at `*idx` with `"` and ends at the next `"`; `*idx` moves past it.
pub fn parse_string(json_str: &Vec<char>, idx: &mut usize) -> (res: Result<String, ParseError>)
    ensures
        match spec_parse_string(json_str@, *old(idx) as nat) {
            Ok((t, j)) => res matches Ok(r) && r@ == t && *final(idx) == j,
            Err(e) => res == Err::<String, ParseError>(e),
        },
        res is Ok ==> *old(idx) < *final(idx) <= json_str.len(),
{
    let mut str = String::new();
    if *idx >= json_str.len() {
        return Err(ParseError::UnexpectedEnd);
    }
    if json_str[*idx] != '"' {
        return Err(ParseError::ExpectedOpenQuote);
    }
    let start = *idx + 1;
    let mut end_idx = start;
    proof {
        lemma_find_quote(json_str@, start as nat);
    }
    while end_idx < json_str.len() && json_str[end_idx] != '"'
        invariant
            start <= end_idx <= json_str.len(),
            find_quote(json_str@, start as nat) == find_quote(json_str@, end_idx as nat),
        decreases json_str.len() - end_idx,
    {
        end_idx = end_idx + 1;
    }
    if end_idx >= json_str.len() {
        return Err(ParseError::ExpectedCloseQuote);
    }
    let mut i = start;
    while i < end_idx
        invariant
            start <= i <= end_idx < json_str.len(),
            str@ == json_str@.subrange(start as int, i as int),
        decreases end_idx - i,
    {
        str.push(json_str[i]);
        i = i + 1;
        assert(str@ =~= json_str@.subrange(start as int, i as int));
    }
    *idx = end_idx + 1;
    Ok(str)
}


/// The digit values of `json_str[from..to]`, all of which are digits.
fn digits_of(json_str: &Vec<char>, from: usize, to: usize) -> (ds: Vec<u8>)
    requires
        from <= to <= json_str.len(),
        forall|k: int| from <= k < to ==> is_digit(#[trigger] json_str@[k]),
    ensures
        ds@ == digit_values(json_str@.subrange(from as int, to as int)),
{
    let mut ds: Vec<u8> = Vec::new();
    let mut k = from;
    while k < to
        invariant
            from <= k <= to <= json_str.len(),
            forall|m: int| from <= m < to ==> is_digit(#[trigger] json_str@[m]),
            ds@ == digit_values(json_str@.subrange(from as int, k as int)),
        decreases to - k,
    {
        let c = json_str[k];
        assert(is_digit(json_str@[k as int]));
        let d: u32 = (c as u32) - ('0' as u32);
        ds.push(d as u8);
        k = k + 1;
        assert(ds@ =~= digit_values(json_str@.subrange(from as int, k as int)));
    }
    ds
}

/// Reads the run of digits and points that starts at `*idx` as a number; `*idx` moves past it.
/// An empty run reads as the number with no digits.
pub fn parse_number(json_str: &Vec<char>, idx: &mut usize) -> (res: Result<Jnumber, ParseError>)
    ensures
        match spec_parse_number(json_str@, *old(idx) as nat) {
            Ok((n, j)) => res matches Ok(r) && r.view_digits() == n && *final(idx) == j,
            Err(e) => res == Err::<Jnumber, ParseError>(e),
        },
        res is Ok ==> *old(idx) <= *final(idx) <= json_str.len(),
{
    let ghost s = json_str@;
    let beg = *idx;
    if beg >= json_str.len() {
        return Err(ParseError::UnexpectedEnd);
    }
    let mut point_pos: Option<usize> = None;
    let mut end = beg;
    proof {
        lemma_number_end(s, beg as nat);
    }
    while end < json_str.len() && (json_str[end] == '.' || ('0' <= json_str[end] && json_str[end] <= '9'))
        invariant
            s == json_str@,
            beg == *old(idx),
            beg <= end <= json_str.len(),
            number_end(s, beg as nat) == number_end(s, end as nat),
            forall|k: int| beg <= k < end ==> is_number_char(#[trigger] s[k]),
            match point_pos {
                None => forall|k: int| beg <= k < end ==> #[trigger] s[k] != '.',
                Some(p) => beg <= p < end && s[p as int] == '.' && forall|k: int|
                    beg <= k < end && k != p ==> #[trigger] s[k] != '.',
            },
        decreases json_str.len() - end,
    {
        if json_str[end] == '.' {
            if let Some(p) = point_pos {
                proof {
                    lemma_number_end(s, (end + 1) as nat);
                    assert(number_end(s, end as nat) == number_end(s, (end + 1) as nat));
                    assert(s[p as int] == '.' && s[end as int] == '.');
                    assert(has_two_points(s, beg as nat, number_end(s, beg as nat)));
                }
                return Err(ParseError::RepeatedPoint);
            }
            point_pos = Some(end);
        }
        end = end + 1;
    }
    proof {
        lemma_number_end(s, end as nat);
    }
    let ghost e = number_end(s, beg as nat);
    assert(e == end);
    *idx = end;
    match point_pos {
        Some(p) => {
            assert(!has_two_points(s, beg as nat, e));
            assert(has_point(s, beg as nat, e));
            let ghost q = choose|q: int| beg <= q < e && s[q] == '.';
            assert(q == p);
            let int_digits = digits_of(json_str, beg, p);
            let frac_digits = digits_of(json_str, p + 1, end);
            Ok(Jnumber { int_digits, frac_digits })
        },
        None => {
            assert(!has_two_points(s, beg as nat, e));
            assert(!has_point(s, beg as nat, e));
            let int_digits = digits_of(json_str, beg, end);
            let frac_digits: Vec<u8> = Vec::new();
            assert(frac_digits@ =~= Seq::<u8>::empty());
            Ok(Jnumber { int_digits, frac_digits })
        },
    }
}

/// Whether `json_str[i..i + 4]` spells `a b c d`.
fn word_at_exec(json_str: &Vec<char>, i: usize, a: char, b: char, c: char, d: char) -> (r: bool)
    requires
        i + 4 <= json_str.len(),
    ensures
        r == word_at(json_str@, i as nat, a, b, c, d),
{
    json_str[i] == a && json_str[i + 1] == b && json_str[i + 2] == c && json_str[i + 3] == d
}

/// Reads a scalar at `*idx`: a string, `null`, `true`, `false` or else a number.
pub fn parse_val(json_str: &Vec<char>, idx: &mut usize) -> (res: Result<Jval, ParseError>)
    ensures
        match spec_parse_val(json_str@, *old(idx) as nat) {
            Ok((v, j)) => res matches Ok(r) && r@ == v && *final(idx) == j,
            Err(e) => res == Err::<Jval, ParseError>(e),
        },
        res is Ok ==> *old(idx) <= *final(idx) <= json_str.len(),
{
    let len = json_str.len();
    if *idx >= len {
        return Err(ParseError::UnexpectedEnd);
    }
    if json_str[*idx] == '"' {
        return match parse_string(json_str, idx) {
            Ok(t) => Ok(Jval::String(t)),
            Err(e) => Err(e),
        };
    }
    if len >= 4 && *idx <= len - 4 {
        if word_at_exec(json_str, *idx, 'n', 'u', 'l', 'l') {
            *idx = *idx + 4;
            return Ok(Jval::Null);
        }
        if word_at_exec(json_str, *idx, 't', 'r', 'u', 'e') {
            *idx = *idx + 4;
            return Ok(Jval::Bool(true));
        }
    }
    if len >= 5 && *idx <= len - 5 {
        if word_at_exec(json_str, *idx, 'f', 'a', 'l', 's') {
            *idx = *idx + 5;
            return Ok(Jval::Bool(false));
        }
    }
    match parse_number(json_str, idx) {
        Ok(n) => Ok(Jval::Number(n)),
        Err(e) => Err(e),
    }
}


/// Moves `*idx` past the blanks that start there.
fn skip_blank_chars(json_str: &Vec<char>, idx: &mut usize)
    ensures
        *final(idx) == skip_blanks(json_str@, *old(idx) as nat),
{
    proof {
        lemma_skip_blanks(json_str@, *idx as nat);
    }
    while *idx < json_str.len() && is_blank_char(json_str[*idx])
        invariant
            skip_blanks(json_str@, *old(idx) as nat) == skip_blanks(json_str@, *idx as nat),
        decreases json_str.len() - *idx,
    {
        *idx = *idx + 1;
    }
}

/// Adds a member to `pairs`, in place of the member with the same key if there is one.
fn insert_pair(pairs: &mut Vec<Jpair>, key: String, val: Jobject)
    requires
        keys_distinct(pair_entries(old(pairs)@)),
    ensures
        keys_distinct(pair_entries(final(pairs)@)),
        entries_map(pair_entries(final(pairs)@)) == entries_map(pair_entries(old(pairs)@)).insert(
            key@,
            val@,
        ),
{
    let ghost es = pair_entries(pairs@);
    let mut i: usize = 0;
    while i < pairs.len()
        invariant
            pairs@ == old(pairs)@,
            es == pair_entries(pairs@),
            keys_distinct(es),
            i <= pairs.len(),
            forall|m: int| 0 <= m < i ==> (#[trigger] es[m]).0 != key@,
        decreases pairs.len() - i,
    {
        if pairs[i].0 == key {
            let ghost kv = (key@, val@);
            pairs.set(i, Jpair(key, val));
            proof {
                assert(pair_entries(pairs@) =~= es.update(i as int, kv));
                lemma_entries_map_update(es, i as int, kv.0, kv.1);
                let us = es.update(i as int, kv);
                assert forall|m: int| 0 <= m < us.len() implies (#[trigger] us[m]).0 == es[m].0 by {}
            }
            return;
        }
        i = i + 1;
    }
    let ghost kv = (key@, val@);
    pairs.push(Jpair(key, val));
    proof {
        assert(pair_entries(pairs@) =~= es.push(kv));
        assert(es.push(kv).drop_last() =~= es);
    }
}

/// Reads a value at `*idx`, after any blanks: an object, an array or a scalar.
pub fn parse_object(json_str: &Vec<char>, idx: &mut usize) -> (res: Result<Jobject, ParseError>)
    ensures
        match spec_parse_object(json_str@, *old(idx) as nat) {
            Ok((v, j)) => res matches Ok(o) && o@ == v && *final(idx) == j,
            Err(e) => res == Err::<Jobject, ParseError>(e),
        },
        res is Ok ==> *old(idx) <= *final(idx) <= json_str.len(),
    decreases json_str@.len() - *old(idx), 1int,
{
    proof {
        lemma_skip_blanks(json_str@, *idx as nat);
    }
    skip_blank_chars(json_str, idx);
    if *idx >= json_str.len() {
        return Err(ParseError::UnexpectedEnd);
    }
    if json_str[*idx] == '{' {
        match parse_map(json_str, idx) {
            Ok(m) => Ok(Jobject::Jmap(m)),
            Err(e) => Err(e),
        }
    } else if json_str[*idx] == '[' {
        match parse_vec(json_str, idx) {
            Ok(v) => Ok(Jobject::Jvec(v)),
            Err(e) => Err(e),
        }
    } else {
        match parse_val(json_str, idx) {
            Ok(v) => Ok(Jobject::Jval(v)),
            Err(e) => Err(e),
        }
    }
}

/// Reads an object that starts at `*idx` with `{`; `*idx` moves past its `}`.
/// A later member replaces an earlier one with the same key.
pub fn parse_map(json_str: &Vec<char>, idx: &mut usize) -> (res: Result<Jmap, ParseError>)
    ensures
        match spec_parse_map(json_str@, *old(idx) as nat) {
            Ok((v, j)) => res matches Ok(m) && Json::Object(m@) == v && *final(idx) == j,
            Err(e) => res == Err::<Jmap, ParseError>(e),
        },
        res is Ok ==> *old(idx) < *final(idx) <= json_str.len(),
    decreases json_str@.len() - *old(idx), 0int,
{
    let ghost s = json_str@;
    let ghost i0 = *idx;
    if *idx >= json_str.len() {
        return Err(ParseError::UnexpectedEnd);
    }
    if json_str[*idx] != '{' {
        return Err(ParseError::ExpectedLeftBrace);
    }
    *idx = *idx + 1;
    let mut jpairs: Vec<Jpair> = Vec::new();
    proof {
            assert(pair_entries(jpairs@) =~= Seq::<(Seq<char>, Json)>::empty());
        assert(entries_map(pair_entries(jpairs@)) =~= Map::<Seq<char>, Json>::empty());
    }
    loop
        invariant
            s == json_str@,
            i0 == *old(idx),
            i0 < *idx <= json_str.len(),
            keys_distinct(pair_entries(jpairs@)),
            spec_parse_map(s, i0 as nat) == spec_parse_members(
                s,
                *idx as nat,
                entries_map(pair_entries(jpairs@)),
            ),
        decreases json_str.len() - *idx,
    {
        let ghost start = *idx;
        let ghost acc = entries_map(pair_entries(jpairs@));
        proof {
            lemma_skip_blanks(s, start as nat);
        }
        skip_blank_chars(json_str, idx);
        if *idx >= json_str.len() {
            return Err(ParseError::UnexpectedEnd);
        }
        if json_str[*idx] == '}' {
            *idx = *idx + 1;
            return Ok(Jmap::from_pairs(jpairs));
        }
        let jpair = match parse_pair(json_str, idx) {
            Ok(p) => p,
            Err(e) => {
                return Err(e);
            },
        };
        let Jpair(key, val) = jpair;
        insert_pair(&mut jpairs, key, val);
        let ghost k = *idx;
        proof {
            lemma_skip_blanks(s, k as nat);
        }
        skip_blank_chars(json_str, idx);
        if *idx >= json_str.len() {
            return Err(ParseError::UnexpectedEnd);
        }
        if json_str[*idx] == ',' {
            *idx = *idx + 1;
        } else if json_str[*idx] == '}' {
            *idx = *idx + 1;
            return Ok(Jmap::from_pairs(jpairs));
        } else {
            return Err(ParseError::ExpectedComma);
        }
    }
}

/// Reads a member at `*idx`: a string key, then directly `:`, then a value.
pub fn parse_pair(json_str: &Vec<char>, idx: &mut usize) -> (res: Result<Jpair, ParseError>)
    ensures
        match spec_parse_pair(json_str@, *old(idx) as nat) {
            Ok((kv, j)) => res matches Ok(p) && p.0@ == kv.0 && p.1@ == kv.1 && *final(idx) == j,
            Err(e) => res == Err::<Jpair, ParseError>(e),
        },
        res is Ok ==> *old(idx) < *final(idx) <= json_str.len(),
    decreases json_str@.len() - *old(idx), 0int,
{
    proof {
        lemma_find_quote(json_str@, (*idx + 1) as nat);
    }
    let jk = match parse_string(json_str, idx) {
        Ok(t) => t,
        Err(e) => {
            return Err(e);
        },
    };
    if *idx >= json_str.len() {
        return Err(ParseError::UnexpectedEnd);
    }
    if json_str[*idx] != ':' {
        return Err(ParseError::ExpectedColon);
    }
    *idx = *idx + 1;
    let jv = match parse_object(json_str, idx) {
        Ok(v) => v,
        Err(e) => {
            return Err(e);
        },
    };
    Ok(Jpair(jk, jv))
}

/// Reads an array that starts at `*idx` with `[`; `*idx` moves past its `]`.
pub fn parse_vec(json_str: &Vec<char>, idx: &mut usize) -> (res: Result<Jvec, ParseError>)
    ensures
        match spec_parse_vec(json_str@, *old(idx) as nat) {
            Ok((v, j)) => res matches Ok(a) && Json::Array(a@) == v && *final(idx) == j,
            Err(e) => res == Err::<Jvec, ParseError>(e),
        },
        res is Ok ==> *old(idx) < *final(idx) <= json_str.len(),
    decreases json_str@.len() - *old(idx), 0int,
{
    let ghost s = json_str@;
    let ghost i0 = *idx;
    if *idx >= json_str.len() {
        return Err(ParseError::UnexpectedEnd);
    }
    if json_str[*idx] != '[' {
        return Err(ParseError::ExpectedLeftBracket);
    }
    *idx = *idx + 1;
    let mut jobjects: Vec<Jobject> = Vec::new();
    assert(item_views(jobjects@) =~= Seq::<Json>::empty());
    loop
        invariant
            s == json_str@,
            i0 == *old(idx),
            i0 < *idx <= json_str.len(),
            spec_parse_vec(s, i0 as nat) == spec_parse_items(s, *idx as nat, item_views(jobjects@)),
        decreases json_str.len() - *idx,
    {
        let ghost start = *idx;
        proof {
            lemma_skip_blanks(s, start as nat);
        }
        skip_blank_chars(json_str, idx);
        if *idx >= json_str.len() {
            return Err(ParseError::UnexpectedEnd);
        }
        if json_str[*idx] == ']' {
            *idx = *idx + 1;
            return Ok(Jvec::from_items(jobjects));
        }
        let obj = match parse_object(json_str, idx) {
            Ok(o) => o,
            Err(e) => {
                return Err(e);
            },
        };
        let ghost acc = item_views(jobjects@);
        jobjects.push(obj);
        assert(item_views(jobjects@) =~= acc.push(obj@));
        let ghost k = *idx;
        proof {
            lemma_skip_blanks(s, k as nat);
        }
        skip_blank_chars(json_str, idx);
        if *idx >= json_str.len() {
            return Err(ParseError::UnexpectedEnd);
        }
        if json_str[*idx] == ',' {
            *idx = *idx + 1;
        } else if json_str[*idx] == ']' {
            *idx = *idx + 1;
            return Ok(Jvec::from_items(jobjects));
        } else {
            return Err(ParseError::ExpectedComma);
        }
    }
}


/// The characters of `js`, in order.
fn chars_of(js: &str) -> (cs: Vec<char>)
    ensures
        cs@ == js@,
{
    broadcast use vstd::string::group_string_axioms;
    let mut cs: Vec<char> = Vec::new();
    for c in it: js.chars()
        invariant
            cs@ == it.seq().take(it.index() as int),
    {
        cs.push(c);
    }
    cs
}

/// Parses a whole document: the value that starts after any leading blanks.
/// What follows that value is not read.
pub fn parse(js: &mut String) -> (res: Result<Jobject, ParseError>)
    ensures
        *final(js) == *old(js),
        match spec_parse(old(js)@) {
            Ok(v) => res matches Ok(o) && o@ == v,
            Err(e) => res == Err::<Jobject, ParseError>(e),
        },
{
    let idx: &mut usize = &mut 0;
    let json_str = chars_of(js.as_str());
    parse_object(&json_str, idx)
}



} // verus!
