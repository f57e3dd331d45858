use vstd::prelude::*;

use super::grammar::{
    find_quote, has_point, has_two_points, is_blank, is_number_char, lemma_find_quote,
    lemma_number_end, lemma_skip_blanks, number_end, skip_blanks, spec_parse, spec_parse_items,
    spec_parse_map, spec_parse_members, spec_parse_number, spec_parse_object, spec_parse_pair,
    spec_parse_string, spec_parse_val, spec_parse_vec, word_at, digit_values,
};
use super::model::{Json, ParseError};

verus! {

// ---------------------------------------------------------------------------
// Progress
// ---------------------------------------------------------------------------

/// A scalar that is read ends within the input, no earlier than where it started.
pub proof fn lemma_val_progress(s: Seq<char>, i: nat)
    ensures
        spec_parse_val(s, i) matches Ok((_, j)) ==> i <= j <= s.len(),
{
    if i < s.len() {
        lemma_find_quote(s, i + 1);
        lemma_number_end(s, i);
    }
}

/// A value that is read ends within the input, no earlier than where it started: the reader
/// never moves backwards, and the branch of the grammar that guards against it is never taken.
pub proof fn lemma_object_progress(s: Seq<char>, i: nat)
    ensures
        spec_parse_object(s, i) matches Ok((_, j)) ==> i <= j <= s.len(),
    decreases s.len() - i, 2int,
{
    let j = skip_blanks(s, i);
    lemma_skip_blanks(s, i);
    if j < s.len() {
        if s[j as int] == '{' {
            lemma_map_progress(s, j);
        } else if s[j as int] == '[' {
            lemma_vec_progress(s, j);
        } else {
            lemma_val_progress(s, j);
        }
    }
}

/// An object that is read ends within the input, after where it started.
pub proof fn lemma_map_progress(s: Seq<char>, i: nat)
    ensures
        spec_parse_map(s, i) matches Ok((_, j)) ==> i < j <= s.len(),
    decreases s.len() - i, 1int,
{
    if i < s.len() && s[i as int] == '{' {
        lemma_members_progress(s, i + 1, Map::empty());
    }
}

/// The members of an object that are read end within the input, after where they started.
pub proof fn lemma_members_progress(s: Seq<char>, i: nat, acc: Map<Seq<char>, Json>)
    ensures
        spec_parse_members(s, i, acc) matches Ok((_, j)) ==> i < j <= s.len(),
    decreases s.len() - i, 1int,
{
    let j = skip_blanks(s, i);
    lemma_skip_blanks(s, i);
    if j < s.len() && s[j as int] != '}' {
        lemma_pair_progress(s, j);
        if let Ok((kv, k)) = spec_parse_pair(s, j) {
            let l = skip_blanks(s, k);
            lemma_skip_blanks(s, k);
            if l < s.len() && s[l as int] == ',' {
                lemma_members_progress(s, l + 1, acc.insert(kv.0, kv.1));
            }
        }
    }
}

/// A member that is read ends within the input, after where it started.
pub proof fn lemma_pair_progress(s: Seq<char>, i: nat)
    ensures
        spec_parse_pair(s, i) matches Ok((_, j)) ==> i < j <= s.len(),
    decreases s.len() - i, 0int,
{
    lemma_find_quote(s, i + 1);
    if let Ok((key, j)) = spec_parse_string(s, i) {
        if j < s.len() && s[j as int] == ':' {
            lemma_object_progress(s, j + 1);
        }
    }
}

/// An array that is read ends within the input, after where it started.
pub proof fn lemma_vec_progress(s: Seq<char>, i: nat)
    ensures
        spec_parse_vec(s, i) matches Ok((_, j)) ==> i < j <= s.len(),
    decreases s.len() - i, 1int,
{
    if i < s.len() && s[i as int] == '[' {
        lemma_items_progress(s, i + 1, Seq::empty());
    }
}

/// The elements of an array that are read end within the input, after where they started.
pub proof fn lemma_items_progress(s: Seq<char>, i: nat, acc: Seq<Json>)
    ensures
        spec_parse_items(s, i, acc) matches Ok((_, j)) ==> i < j <= s.len(),
    decreases s.len() - i, 3int,
{
    let j = skip_blanks(s, i);
    lemma_skip_blanks(s, i);
    if j < s.len() && s[j as int] != ']' {
        lemma_object_progress(s, j);
        if let Ok((v, k)) = spec_parse_object(s, j) {
            let l = skip_blanks(s, k);
            lemma_skip_blanks(s, k);
            if l < s.len() && s[l as int] == ',' {
                lemma_items_progress(s, l + 1, acc.push(v));
            }
        }
    }
}

// ---------------------------------------------------------------------------
// Text after the input
// ---------------------------------------------------------------------------

/// A character that may follow a value inside an object or an array.
pub open spec fn closes(c: char) -> bool {
    is_blank(c) || c == ',' || c == ']' || c == '}'
}

proof fn lemma_skip_blanks_ext(s: Seq<char>, t: Seq<char>, i: nat)
    requires
        skip_blanks(s, i) < s.len(),
    ensures
        skip_blanks(s + t, i) == skip_blanks(s, i),
    decreases s.len() - i,
{
    if i < s.len() && is_blank(s[i as int]) {
        lemma_skip_blanks_ext(s, t, i + 1);
    }
}

proof fn lemma_find_quote_ext(s: Seq<char>, t: Seq<char>, i: nat)
    requires
        find_quote(s, i) < s.len(),
    ensures
        find_quote(s + t, i) == find_quote(s, i),
    decreases s.len() - i,
{
    if i < s.len() && s[i as int] != '"' {
        lemma_find_quote_ext(s, t, i + 1);
    }
}

proof fn lemma_number_end_ext(s: Seq<char>, t: Seq<char>, i: nat)
    requires
        number_end(s, i) < s.len(),
    ensures
        number_end(s + t, i) == number_end(s, i),
    decreases s.len() - i,
{
    if i < s.len() && is_number_char(s[i as int]) {
        lemma_number_end_ext(s, t, i + 1);
    }
}

/// A scalar followed by a closing character reads the same whatever follows the input.
proof fn lemma_val_ext(s: Seq<char>, t: Seq<char>, i: nat)
    requires
        spec_parse_val(s, i) matches Ok((_, k)) && k < s.len() && closes(s[k as int]),
    ensures
        spec_parse_val(s + t, i) == spec_parse_val(s, i),
{
    let u = s + t;
    if s[i as int] == '"' {
        lemma_find_quote(s, i + 1);
        lemma_find_quote_ext(s, t, i + 1);
        let e = find_quote(s, i + 1);
        assert(u.subrange(i + 1int, e as int) =~= s.subrange(i + 1int, e as int));
    } else if word_at(s, i, 'n', 'u', 'l', 'l') || word_at(s, i, 't', 'r', 'u', 'e') || (i + 5
        <= s.len() && word_at(s, i, 'f', 'a', 'l', 's')) {
    } else {
        lemma_number_end(s, i);
        let e = number_end(s, i);
        if s[i as int] == 'n' || s[i as int] == 't' || s[i as int] == 'f' {
            assert(e == i);
        }
        lemma_number_end_ext(s, t, i);
        assert(!word_at(u, i, 'n', 'u', 'l', 'l'));
        assert(!word_at(u, i, 't', 'r', 'u', 'e'));
        assert(!word_at(u, i, 'f', 'a', 'l', 's'));
        assert(has_two_points(u, i, e) == has_two_points(s, i, e)) by {
            if has_two_points(u, i, e) {
                let (a, b) = choose|a: int, b: int| i <= a < b < e && u[a] == '.' && u[b] == '.';
                assert(s[a] == '.' && s[b] == '.');
            }
            if has_two_points(s, i, e) {
                let (a, b) = choose|a: int, b: int| i <= a < b < e && s[a] == '.' && s[b] == '.';
                assert(u[a] == '.' && u[b] == '.');
            }
        }
        assert(has_point(u, i, e) == has_point(s, i, e)) by {
            if has_point(u, i, e) {
                let p = choose|p: int| i <= p < e && u[p] == '.';
                assert(s[p] == '.');
            }
            if has_point(s, i, e) {
                let p = choose|p: int| i <= p < e && s[p] == '.';
                assert(u[p] == '.');
            }
        }
        if !has_two_points(s, i, e) {
            if has_point(s, i, e) {
                let p = choose|p: int| i <= p < e && s[p] == '.';
                let q = choose|q: int| i <= q < e && u[q] == '.';
                assert(s[q] == '.');
                if p < q {
                    assert(has_two_points(s, i, e));
                } else if q < p {
                    assert(has_two_points(s, i, e));
                }
                assert(u.subrange(i as int, p) =~= s.subrange(i as int, p));
                assert(u.subrange(p + 1, e as int) =~= s.subrange(p + 1, e as int));
            } else {
                assert(u.subrange(i as int, e as int) =~= s.subrange(i as int, e as int));
            }
        }
    }
}

/// A value followed by a closing character reads the same whatever follows the input.
proof fn lemma_object_ext(s: Seq<char>, t: Seq<char>, i: nat)
    requires
        spec_parse_object(s, i) matches Ok((_, k)) && k < s.len() && closes(s[k as int]),
    ensures
        spec_parse_object(s + t, i) == spec_parse_object(s, i),
    decreases s.len() - i, 2int,
{
    let j = skip_blanks(s, i);
    lemma_skip_blanks(s, i);
    lemma_skip_blanks_ext(s, t, i);
    if s[j as int] == '{' {
        lemma_map_ext(s, t, j);
    } else if s[j as int] == '[' {
        lemma_vec_ext(s, t, j);
    } else {
        lemma_val_ext(s, t, j);
    }
}

/// An object reads the same whatever follows the input.
proof fn lemma_map_ext(s: Seq<char>, t: Seq<char>, i: nat)
    requires
        spec_parse_map(s, i) is Ok,
    ensures
        spec_parse_map(s + t, i) == spec_parse_map(s, i),
    decreases s.len() - i, 1int,
{
    lemma_members_ext(s, t, i + 1, Map::empty());
}

proof fn lemma_members_ext(s: Seq<char>, t: Seq<char>, i: nat, acc: Map<Seq<char>, Json>)
    requires
        spec_parse_members(s, i, acc) is Ok,
    ensures
        spec_parse_members(s + t, i, acc) == spec_parse_members(s, i, acc),
    decreases s.len() - i, 1int,
{
    let j = skip_blanks(s, i);
    lemma_skip_blanks(s, i);
    lemma_skip_blanks_ext(s, t, i);
    if s[j as int] != '}' {
        let (kv, k) = spec_parse_pair(s, j)->Ok_0;
        let l = skip_blanks(s, k);
        lemma_skip_blanks(s, k);
        lemma_skip_blanks_ext(s, t, k);
        lemma_pair_ext(s, t, j);
        if s[l as int] == ',' {
            lemma_members_ext(s, t, l + 1, acc.insert(kv.0, kv.1));
        }
    }
}

/// A member followed by a closing character reads the same whatever follows the input.
proof fn lemma_pair_ext(s: Seq<char>, t: Seq<char>, i: nat)
    requires
        spec_parse_pair(s, i) matches Ok((_, k)) && k < s.len() && closes(s[k as int]),
    ensures
        spec_parse_pair(s + t, i) == spec_parse_pair(s, i),
    decreases s.len() - i, 0int,
{
    let u = s + t;
    lemma_find_quote(s, i + 1);
    lemma_find_quote_ext(s, t, i + 1);
    let e = find_quote(s, i + 1);
    assert(u.subrange(i + 1int, e as int) =~= s.subrange(i + 1int, e as int));
    lemma_object_ext(s, t, e + 2);
}

/// An array reads the same whatever follows the input.
proof fn lemma_vec_ext(s: Seq<char>, t: Seq<char>, i: nat)
    requires
        spec_parse_vec(s, i) is Ok,
    ensures
        spec_parse_vec(s + t, i) == spec_parse_vec(s, i),
    decreases s.len() - i, 1int,
{
    lemma_items_ext(s, t, i + 1, Seq::empty());
}

proof fn lemma_items_ext(s: Seq<char>, t: Seq<char>, i: nat, acc: Seq<Json>)
    requires
        spec_parse_items(s, i, acc) is Ok,
    ensures
        spec_parse_items(s + t, i, acc) == spec_parse_items(s, i, acc),
    decreases s.len() - i, 3int,
{
    let j = skip_blanks(s, i);
    lemma_skip_blanks(s, i);
    lemma_skip_blanks_ext(s, t, i);
    if s[j as int] != ']' {
        let (v, k) = spec_parse_object(s, j)->Ok_0;
        let l = skip_blanks(s, k);
        lemma_skip_blanks(s, k);
        lemma_skip_blanks_ext(s, t, k);
        lemma_object_ext(s, t, j);
        if s[l as int] == ',' {
            lemma_items_ext(s, t, l + 1, acc.push(v));
        }
    }
}

/// A document whose value is an object or an array is read the same whatever text follows it:
/// the parser stops at the bracket that closes the value.
pub proof fn lemma_parse_ignores_trailing_text(s: Seq<char>, t: Seq<char>)
    requires
        spec_parse(s) matches Ok(v) && (v is Object || v is Array),
    ensures
        spec_parse(s + t) == spec_parse(s),
{
    let j = skip_blanks(s, 0);
    lemma_skip_blanks(s, 0);
    lemma_skip_blanks_ext(s, t, 0);
    if s[j as int] == '{' {
        lemma_map_ext(s, t, j);
    } else if s[j as int] == '[' {
        lemma_vec_ext(s, t, j);
    }
}

// ---------------------------------------------------------------------------
// Text before the input
// ---------------------------------------------------------------------------

/// A read result with every position moved `n` places on.
pub open spec fn shifted<T>(r: Result<(T, nat), ParseError>, n: nat) -> Result<(T, nat), ParseError> {
    match r {
        Ok((v, j)) => Ok((v, j + n)),
        Err(e) => Err(e),
    }
}

proof fn lemma_skip_blanks_shift(p: Seq<char>, s: Seq<char>, i: nat)
    ensures
        skip_blanks(p + s, p.len() + i) == p.len() + skip_blanks(s, i),
    decreases s.len() - i,
{
    let u = p + s;
    if i < s.len() {
        assert(u[p.len() + i as int] == s[i as int]);
        if is_blank(s[i as int]) {
            lemma_skip_blanks_shift(p, s, i + 1);
        }
    }
}

proof fn lemma_find_quote_shift(p: Seq<char>, s: Seq<char>, i: nat)
    ensures
        find_quote(p + s, p.len() + i) == p.len() + find_quote(s, i),
    decreases s.len() - i,
{
    let u = p + s;
    if i < s.len() {
        assert(u[p.len() + i as int] == s[i as int]);
        if s[i as int] != '"' {
            lemma_find_quote_shift(p, s, i + 1);
        }
    }
}

proof fn lemma_number_end_shift(p: Seq<char>, s: Seq<char>, i: nat)
    ensures
        number_end(p + s, p.len() + i) == p.len() + number_end(s, i),
    decreases s.len() - i,
{
    let u = p + s;
    if i < s.len() {
        assert(u[p.len() + i as int] == s[i as int]);
        if is_number_char(s[i as int]) {
            lemma_number_end_shift(p, s, i + 1);
        }
    }
}

proof fn lemma_string_shift(p: Seq<char>, s: Seq<char>, i: nat)
    ensures
        spec_parse_string(p + s, p.len() + i) == shifted(spec_parse_string(s, i), p.len()),
{
    let u = p + s;
    let n = p.len() as int;
    if i < s.len() {
        assert(u[n + i] == s[i as int]);
        lemma_find_quote_shift(p, s, i + 1);
        lemma_find_quote(s, i + 1);
        let e = find_quote(s, i + 1);
        if e < s.len() {
            assert(u.subrange(n + i + 1, n + e) =~= s.subrange(i + 1int, e as int));
        }
    }
}

proof fn lemma_number_shift(p: Seq<char>, s: Seq<char>, i: nat)
    ensures
        spec_parse_number(p + s, p.len() + i) == shifted(spec_parse_number(s, i), p.len()),
{
    let u = p + s;
    let n = p.len() as int;
    if i < s.len() {
        lemma_number_end_shift(p, s, i);
        lemma_number_end(s, i);
        let e = number_end(s, i);
        let (iu, eu) = ((n + i) as nat, (n + e) as nat);
        assert(has_two_points(u, iu, eu) == has_two_points(s, i, e)) by {
            if has_two_points(u, iu, eu) {
                let (a, b) = choose|a: int, b: int| iu <= a < b < eu && u[a] == '.' && u[b] == '.';
                assert(s[a - n] == '.' && s[b - n] == '.');
            }
            if has_two_points(s, i, e) {
                let (a, b) = choose|a: int, b: int| i <= a < b < e && s[a] == '.' && s[b] == '.';
                assert(u[a + n] == '.' && u[b + n] == '.');
            }
        }
        assert(has_point(u, iu, eu) == has_point(s, i, e)) by {
            if has_point(u, iu, eu) {
                let q = choose|q: int| iu <= q < eu && u[q] == '.';
                assert(s[q - n] == '.');
            }
            if has_point(s, i, e) {
                let q = choose|q: int| i <= q < e && s[q] == '.';
                assert(u[q + n] == '.');
            }
        }
        if !has_two_points(s, i, e) {
            if has_point(s, i, e) {
                let ps = choose|q: int| i <= q < e && s[q] == '.';
                let pu = choose|q: int| iu <= q < eu && u[q] == '.';
                assert(s[pu - n] == '.');
                if pu - n < ps {
                    assert(has_two_points(s, i, e));
                } else if ps < pu - n {
                    assert(has_two_points(s, i, e));
                }
                assert(u.subrange(iu as int, pu) =~= s.subrange(i as int, ps));
                assert(u.subrange(pu + 1, eu as int) =~= s.subrange(ps + 1, e as int));
            } else {
                assert(u.subrange(iu as int, eu as int) =~= s.subrange(i as int, e as int));
            }
        }
    }
}

proof fn lemma_val_shift(p: Seq<char>, s: Seq<char>, i: nat)
    ensures
        spec_parse_val(p + s, p.len() + i) == shifted(spec_parse_val(s, i), p.len()),
{
    let u = p + s;
    let n = p.len() as int;
    if i < s.len() {
        assert(u[n + i] == s[i as int]);
        lemma_string_shift(p, s, i);
        lemma_number_shift(p, s, i);
        if i + 4 <= s.len() {
            assert(u[n + i + 1] == s[i + 1int] && u[n + i + 2] == s[i + 2int] && u[n + i + 3]
                == s[i + 3int]);
        }
    }
}

/// Reading a value looks only at the text from where it starts: text put before the input
/// moves every position the reader reports by its length, and changes nothing else.
pub proof fn lemma_object_shift(p: Seq<char>, s: Seq<char>, i: nat)
    ensures
        spec_parse_object(p + s, p.len() + i) == shifted(spec_parse_object(s, i), p.len()),
    decreases s.len() - i, 2int,
{
    let u = p + s;
    let n = p.len() as int;
    lemma_skip_blanks_shift(p, s, i);
    lemma_skip_blanks(s, i);
    let j = skip_blanks(s, i);
    if j < s.len() {
        assert(u[n + j] == s[j as int]);
        if s[j as int] == '{' {
            lemma_map_shift(p, s, j);
        } else if s[j as int] == '[' {
            lemma_vec_shift(p, s, j);
        } else {
            lemma_val_shift(p, s, j);
        }
    }
}

proof fn lemma_map_shift(p: Seq<char>, s: Seq<char>, i: nat)
    ensures
        spec_parse_map(p + s, p.len() + i) == shifted(spec_parse_map(s, i), p.len()),
    decreases s.len() - i, 1int,
{
    let u = p + s;
    if i < s.len() {
        assert(u[p.len() + i as int] == s[i as int]);
        lemma_members_shift(p, s, i + 1, Map::empty());
    }
}

proof fn lemma_members_shift(p: Seq<char>, s: Seq<char>, i: nat, acc: Map<Seq<char>, Json>)
    ensures
        spec_parse_members(p + s, p.len() + i, acc) == shifted(
            spec_parse_members(s, i, acc),
            p.len(),
        ),
    decreases s.len() - i, 1int,
{
    let u = p + s;
    let n = p.len() as int;
    lemma_skip_blanks_shift(p, s, i);
    lemma_skip_blanks(s, i);
    let j = skip_blanks(s, i);
    if j < s.len() {
        assert(u[n + j] == s[j as int]);
        if s[j as int] != '}' {
            lemma_pair_shift(p, s, j);
            if let Ok((kv, k)) = spec_parse_pair(s, j) {
                lemma_skip_blanks_shift(p, s, k);
                lemma_skip_blanks(s, k);
                let l = skip_blanks(s, k);
                if k >= j && l < s.len() {
                    assert(u[n + l] == s[l as int]);
                    if s[l as int] == ',' {
                        lemma_members_shift(p, s, l + 1, acc.insert(kv.0, kv.1));
                    }
                }
            }
        }
    }
}

proof fn lemma_pair_shift(p: Seq<char>, s: Seq<char>, i: nat)
    ensures
        spec_parse_pair(p + s, p.len() + i) == shifted(spec_parse_pair(s, i), p.len()),
    decreases s.len() - i, 0int,
{
    let u = p + s;
    lemma_string_shift(p, s, i);
    lemma_find_quote(s, i + 1);
    if let Ok((key, j)) = spec_parse_string(s, i) {
        if j < s.len() {
            assert(u[p.len() + j as int] == s[j as int]);
            if s[j as int] == ':' {
                lemma_object_shift(p, s, j + 1);
            }
        }
    }
}

proof fn lemma_vec_shift(p: Seq<char>, s: Seq<char>, i: nat)
    ensures
        spec_parse_vec(p + s, p.len() + i) == shifted(spec_parse_vec(s, i), p.len()),
    decreases s.len() - i, 1int,
{
    let u = p + s;
    if i < s.len() {
        assert(u[p.len() + i as int] == s[i as int]);
        lemma_items_shift(p, s, i + 1, Seq::empty());
    }
}

proof fn lemma_items_shift(p: Seq<char>, s: Seq<char>, i: nat, acc: Seq<Json>)
    ensures
        spec_parse_items(p + s, p.len() + i, acc) == shifted(spec_parse_items(s, i, acc), p.len()),
    decreases s.len() - i, 3int,
{
    let u = p + s;
    let n = p.len() as int;
    lemma_skip_blanks_shift(p, s, i);
    lemma_skip_blanks(s, i);
    let j = skip_blanks(s, i);
    if j < s.len() {
        assert(u[n + j] == s[j as int]);
        if s[j as int] != ']' {
            lemma_object_shift(p, s, j);
            if let Ok((v, k)) = spec_parse_object(s, j) {
                lemma_skip_blanks_shift(p, s, k);
                lemma_skip_blanks(s, k);
                let l = skip_blanks(s, k);
                if k >= j && l < s.len() {
                    assert(u[n + l] == s[l as int]);
                    if s[l as int] == ',' {
                        lemma_items_shift(p, s, l + 1, acc.push(v));
                    }
                }
            }
        }
    }
}

proof fn lemma_skip_leading_blanks(u: Seq<char>, k: nat, m: nat)
    requires
        k <= m <= u.len(),
        forall|x: int| k <= x < m ==> is_blank(#[trigger] u[x]),
    ensures
        skip_blanks(u, k) == skip_blanks(u, m),
    decreases m - k,
{
    if k < m {
        lemma_skip_leading_blanks(u, k + 1, m);
    }
}

/// Blanks put before a document do not change what it reads as.
pub proof fn lemma_parse_ignores_leading_blanks(b: Seq<char>, s: Seq<char>)
    requires
        forall|k: int| 0 <= k < b.len() ==> is_blank(#[trigger] b[k]),
    ensures
        spec_parse(b + s) == spec_parse(s),
{
    let u = b + s;
    assert forall|x: int| 0 <= x < b.len() implies is_blank(#[trigger] u[x]) by {
        assert(u[x] == b[x]);
    }
    lemma_skip_leading_blanks(u, 0, b.len());
    lemma_object_shift(b, s, 0);
    assert(spec_parse_object(u, 0) == spec_parse_object(u, b.len()));
}

// ---------------------------------------------------------------------------
// What each construct reads as, in terms of the characters of the text
// ---------------------------------------------------------------------------

/// A space, a tab, a line feed or a carriage return.
pub open spec fn blank_char(c: char) -> bool {
    c == ' ' || c == '\t' || c == '\n' || c == '\r'
}

/// `s[a..b]` holds only blanks.
pub open spec fn blanks_between(s: Seq<char>, a: nat, b: nat) -> bool {
    forall|x: int| a <= x < b ==> blank_char(#[trigger] s[x])
}

/// `s[a..b]` holds only the digits `0` to `9`.
pub open spec fn digits_between(s: Seq<char>, a: nat, b: nat) -> bool {
    forall|x: int| a <= x < b ==> '0' <= #[trigger] s[x] && s[x] <= '9'
}

/// `ds` holds the values of the digit characters `s[a..a + ds.len()]`, one for one and in order.
pub open spec fn digit_values_of(ds: Seq<u8>, s: Seq<char>, a: int) -> bool {
    forall|x: int| 0 <= x < ds.len() ==> #[trigger] ds[x] as int == s[a + x] as int - '0' as int
}

proof fn lemma_skip_blanks_to(s: Seq<char>, a: nat, b: nat)
    requires
        a <= b <= s.len(),
        blanks_between(s, a, b),
        b < s.len() ==> !blank_char(s[b as int]),
    ensures
        skip_blanks(s, a) == b,
    decreases b - a,
{
    if a < b {
        assert(blank_char(s[a as int]));
        lemma_skip_blanks_to(s, a + 1, b);
    }
}

proof fn lemma_number_end_to(s: Seq<char>, a: nat, b: nat)
    requires
        a <= b <= s.len(),
        forall|x: int| a <= x < b ==> is_number_char(#[trigger] s[x]),
        b < s.len() ==> !is_number_char(s[b as int]),
    ensures
        number_end(s, a) == b,
    decreases b - a,
{
    if a < b {
        assert(is_number_char(s[a as int]));
        lemma_number_end_to(s, a + 1, b);
    }
}

/// A string reads as exactly the characters between its opening `"` and the next `"`, however
/// few (none included), and the reader stops just past the closing `"`.
pub proof fn lemma_string_reads_enclosed_text(s: Seq<char>, i: nat, e: nat)
    requires
        i < e < s.len(),
        s[i as int] == '"',
        s[e as int] == '"',
        forall|x: int| i < x < e ==> #[trigger] s[x] != '"',
    ensures
        spec_parse_string(s, i) == Ok::<(Seq<char>, nat), ParseError>(
            (s.subrange(i + 1int, e as int), e + 1),
        ),
    decreases e - i,
{
    assert forall|x: int| i + 1 <= x < e implies #[trigger] s[x] != '"' by {}
    lemma_find_quote(s, i + 1);
    let f = find_quote(s, i + 1);
    if f < e {
        assert(s[f as int] == '"');
    }
    if f > e {
        assert(s[e as int] != '"');
    }
}

/// A number with a point reads as the values of all the digits before the point and all the
/// digits after it, in order and zeros included; the reader stops after the last digit.
pub proof fn lemma_number_reads_all_digits(s: Seq<char>, i: nat, p: nat, e: nat)
    requires
        i <= p < e <= s.len(),
        digits_between(s, i, p),
        s[p as int] == '.',
        digits_between(s, p + 1, e),
        e < s.len() ==> !(s[e as int] == '.' || ('0' <= s[e as int] && s[e as int] <= '9')),
    ensures
        spec_parse_number(s, i) matches Ok(((a, b), j)) && j == e && a.len() == p - i
            && digit_values_of(a, s, i as int) && b.len() == e - p - 1 && digit_values_of(
            b,
            s,
            p + 1int,
        ),
{
    assert forall|x: int| i <= x < e implies is_number_char(#[trigger] s[x]) by {
        if x != p {
            if x < p {
                assert('0' <= s[x] && s[x] <= '9');
            } else {
                assert('0' <= s[x] && s[x] <= '9');
            }
        }
    }
    lemma_number_end_to(s, i, e);
    assert(has_point(s, i, e));
    assert(!has_two_points(s, i, e)) by {
        if has_two_points(s, i, e) {
            let (a, b) = choose|a: int, b: int| i <= a < b < e && s[a] == '.' && s[b] == '.';
            if a != p {
                assert('0' <= s[a] && s[a] <= '9');
            } else {
                assert('0' <= s[b] && s[b] <= '9');
            }
        }
    }
    let q = choose|q: int| i <= q < e && s[q] == '.';
    if q != p {
        assert('0' <= s[q] && s[q] <= '9');
    }
}

/// A number without a point reads as the values of all its digits, in order, with none after
/// the point; the reader stops after the last digit.
pub proof fn lemma_number_reads_integer_digits(s: Seq<char>, i: nat, e: nat)
    requires
        i < e <= s.len(),
        digits_between(s, i, e),
        e < s.len() ==> !(s[e as int] == '.' || ('0' <= s[e as int] && s[e as int] <= '9')),
    ensures
        spec_parse_number(s, i) matches Ok(((a, b), j)) && j == e && a.len() == e - i
            && digit_values_of(a, s, i as int) && b.len() == 0,
{
    assert forall|x: int| i <= x < e implies is_number_char(#[trigger] s[x]) by {
        assert('0' <= s[x] && s[x] <= '9');
    }
    lemma_number_end_to(s, i, e);
    assert(!has_point(s, i, e)) by {
        if has_point(s, i, e) {
            let q = choose|q: int| i <= q < e && s[q] == '.';
            assert('0' <= s[q] && s[q] <= '9');
        }
    }
}

/// A member reads as its key, the characters between the quotes, and as its value exactly
/// what is read just after the `:`, whatever kind of value that is; it stops where the value
/// stops.
pub proof fn lemma_pair_reads_key_and_value(s: Seq<char>, i: nat, e: nat)
    requires
        i < e,
        e + 1 < s.len(),
        s[i as int] == '"',
        s[e as int] == '"',
        forall|x: int| i < x < e ==> #[trigger] s[x] != '"',
        s[e + 1int] == ':',
    ensures
        spec_parse_pair(s, i) == match spec_parse_object(s, e + 2) {
            Ok((v, k)) => Ok(((s.subrange(i + 1int, e as int), v), k)),
            Err(err) => Err(err),
        },
{
    lemma_string_reads_enclosed_text(s, i, e);
}

/// The members of an object, after blanks: a member followed by blanks and `}` closes the
/// object with that member added; followed by blanks and `,` the members go on after the
/// `,`; followed by blanks and anything else the object is refused.
pub proof fn lemma_members_step(
    s: Seq<char>,
    i: nat,
    acc: Map<Seq<char>, Json>,
    j: nat,
    key: Seq<char>,
    v: Json,
    k: nat,
    l: nat,
)
    requires
        i <= j < s.len(),
        blanks_between(s, i, j),
        !blank_char(s[j as int]),
        s[j as int] != '}',
        spec_parse_pair(s, j) == Ok::<((Seq<char>, Json), nat), ParseError>(((key, v), k)),
        k <= l < s.len(),
        blanks_between(s, k, l),
        !blank_char(s[l as int]),
    ensures
        s[l as int] == '}' ==> spec_parse_members(s, i, acc) == Ok::<(Json, nat), ParseError>(
            (Json::Object(acc.insert(key, v)), l + 1),
        ),
        s[l as int] == ',' ==> spec_parse_members(s, i, acc) == spec_parse_members(
            s,
            l + 1,
            acc.insert(key, v),
        ),
        s[l as int] != '}' && s[l as int] != ',' ==> spec_parse_members(s, i, acc) == Err::<
            (Json, nat),
            ParseError,
        >(ParseError::ExpectedComma),
{
    lemma_skip_blanks_to(s, i, j);
    lemma_pair_progress(s, j);
    lemma_skip_blanks_to(s, k, l);
}

/// The members of an object, after blanks, end at a `}`: the object read so far is complete.
pub proof fn lemma_members_close(s: Seq<char>, i: nat, acc: Map<Seq<char>, Json>, j: nat)
    requires
        i <= j < s.len(),
        blanks_between(s, i, j),
        s[j as int] == '}',
    ensures
        spec_parse_members(s, i, acc) == Ok::<(Json, nat), ParseError>((Json::Object(acc), j + 1)),
{
    lemma_skip_blanks_to(s, i, j);
}

/// An object with one member, blanks allowed around the member, reads as the map from that
/// member's key to its value, and the reader stops just past the `}`.
pub proof fn lemma_map_one_member(s: Seq<char>, i: nat, j: nat, key: Seq<char>, v: Json, k: nat, l: nat)
    requires
        i < j < s.len(),
        s[i as int] == '{',
        blanks_between(s, i + 1, j),
        !blank_char(s[j as int]),
        s[j as int] != '}',
        spec_parse_pair(s, j) == Ok::<((Seq<char>, Json), nat), ParseError>(((key, v), k)),
        k <= l < s.len(),
        blanks_between(s, k, l),
        s[l as int] == '}',
    ensures
        spec_parse_map(s, i) == Ok::<(Json, nat), ParseError>(
            (Json::Object(Map::empty().insert(key, v)), l + 1),
        ),
{
    lemma_members_step(s, i + 1, Map::empty(), j, key, v, k, l);
}

/// The elements of an array, after blanks: an element followed by blanks and `]` closes the
/// array with that element appended; followed by blanks and `,` the elements go on after the
/// `,`; followed by blanks and anything else the array is refused.
pub proof fn lemma_items_step(
    s: Seq<char>,
    i: nat,
    acc: Seq<Json>,
    j: nat,
    v: Json,
    k: nat,
    l: nat,
)
    requires
        i <= j < s.len(),
        blanks_between(s, i, j),
        !blank_char(s[j as int]),
        s[j as int] != ']',
        spec_parse_object(s, j) == Ok::<(Json, nat), ParseError>((v, k)),
        k <= l < s.len(),
        blanks_between(s, k, l),
        !blank_char(s[l as int]),
    ensures
        s[l as int] == ']' ==> spec_parse_items(s, i, acc) == Ok::<(Json, nat), ParseError>(
            (Json::Array(acc.push(v)), l + 1),
        ),
        s[l as int] == ',' ==> spec_parse_items(s, i, acc) == spec_parse_items(s, l + 1, acc.push(v)),
        s[l as int] != ']' && s[l as int] != ',' ==> spec_parse_items(s, i, acc) == Err::<
            (Json, nat),
            ParseError,
        >(ParseError::ExpectedComma),
{
    lemma_skip_blanks_to(s, i, j);
    lemma_object_progress(s, j);
    lemma_skip_blanks_to(s, k, l);
}

/// The elements of an array, after blanks, end at a `]`: the array read so far is complete.
pub proof fn lemma_items_close(s: Seq<char>, i: nat, acc: Seq<Json>, j: nat)
    requires
        i <= j < s.len(),
        blanks_between(s, i, j),
        s[j as int] == ']',
    ensures
        spec_parse_items(s, i, acc) == Ok::<(Json, nat), ParseError>((Json::Array(acc), j + 1)),
{
    lemma_skip_blanks_to(s, i, j);
}

/// An array with one element, blanks allowed around it, reads as the sequence of that element,
/// and the reader stops just past the `]`.
pub proof fn lemma_vec_one_element(s: Seq<char>, i: nat, j: nat, v: Json, k: nat, l: nat)
    requires
        i < j < s.len(),
        s[i as int] == '[',
        blanks_between(s, i + 1, j),
        !blank_char(s[j as int]),
        s[j as int] != ']',
        spec_parse_object(s, j) == Ok::<(Json, nat), ParseError>((v, k)),
        k <= l < s.len(),
        blanks_between(s, k, l),
        s[l as int] == ']',
    ensures
        spec_parse_vec(s, i) == Ok::<(Json, nat), ParseError>((Json::Array(seq![v]), l + 1)),
{
    lemma_items_step(s, i + 1, Seq::empty(), j, v, k, l);
    assert(Seq::<Json>::empty().push(v) =~= seq![v]);
}

/// A digit or a point.
pub open spec fn digit_or_point(c: char) -> bool {
    c == '.' || ('0' <= c && c <= '9')
}

/// A value, after blanks, is read by what its first character says: `{` an object, `[` an
/// array, anything else a scalar; blanks up to the end of the text are refused.
pub proof fn lemma_object_reads_by_first_char(s: Seq<char>, i: nat, j: nat)
    requires
        i <= j <= s.len(),
        blanks_between(s, i, j),
        j < s.len() ==> !blank_char(s[j as int]),
    ensures
        j == s.len() ==> spec_parse_object(s, i) == Err::<(Json, nat), ParseError>(
            ParseError::UnexpectedEnd,
        ),
        j < s.len() && s[j as int] == '{' ==> spec_parse_object(s, i) == spec_parse_map(s, j),
        j < s.len() && s[j as int] == '[' ==> spec_parse_object(s, i) == spec_parse_vec(s, j),
        j < s.len() && s[j as int] != '{' && s[j as int] != '[' ==> spec_parse_object(s, i)
            == spec_parse_val(s, j),
{
    lemma_skip_blanks_to(s, i, j);
}

/// `{`, blanks, `}` reads as the empty object; `[`, blanks, `]` as the empty array.
pub proof fn lemma_empty_containers(s: Seq<char>, i: nat, j: nat)
    requires
        i < j < s.len(),
        blanks_between(s, i + 1, j),
    ensures
        s[i as int] == '{' && s[j as int] == '}' ==> spec_parse_map(s, i) == Ok::<
            (Json, nat),
            ParseError,
        >((Json::Object(Map::empty()), j + 1)),
        s[i as int] == '[' && s[j as int] == ']' ==> spec_parse_vec(s, i) == Ok::<
            (Json, nat),
            ParseError,
        >((Json::Array(Seq::empty()), j + 1)),
{
    if s[i as int] == '{' && s[j as int] == '}' {
        lemma_members_close(s, i + 1, Map::empty(), j);
    }
    if s[i as int] == '[' && s[j as int] == ']' {
        lemma_items_close(s, i + 1, Seq::empty(), j);
    }
}

/// An object must start with `{` and an array with `[`.
pub proof fn lemma_container_needs_open_bracket(s: Seq<char>, i: nat)
    requires
        i < s.len(),
    ensures
        s[i as int] != '{' ==> spec_parse_map(s, i) == Err::<(Json, nat), ParseError>(
            ParseError::ExpectedLeftBrace,
        ),
        s[i as int] != '[' ==> spec_parse_vec(s, i) == Err::<(Json, nat), ParseError>(
            ParseError::ExpectedLeftBracket,
        ),
{
}

/// A scalar is read by its first characters: `"` a string, `null` the null value, `true`
/// true, the four letters `fals` false (the fifth character is passed over without a look),
/// a digit or a point a number.
pub proof fn lemma_val_reads_by_first_chars(s: Seq<char>, i: nat)
    requires
        i < s.len(),
    ensures
        s[i as int] == '"' ==> spec_parse_val(s, i) == match spec_parse_string(s, i) {
            Ok((t, j)) => Ok((Json::Str(t), j)),
            Err(e) => Err(e),
        },
        i + 4 <= s.len() && s[i as int] == 'n' && s[i + 1int] == 'u' && s[i + 2int] == 'l'
            && s[i + 3int] == 'l' ==> spec_parse_val(s, i) == Ok::<(Json, nat), ParseError>(
            (Json::Null, i + 4),
        ),
        i + 4 <= s.len() && s[i as int] == 't' && s[i + 1int] == 'r' && s[i + 2int] == 'u'
            && s[i + 3int] == 'e' ==> spec_parse_val(s, i) == Ok::<(Json, nat), ParseError>(
            (Json::Bool(true), i + 4),
        ),
        i + 5 <= s.len() && s[i as int] == 'f' && s[i + 1int] == 'a' && s[i + 2int] == 'l'
            && s[i + 3int] == 's' ==> spec_parse_val(s, i) == Ok::<(Json, nat), ParseError>(
            (Json::Bool(false), i + 5),
        ),
        digit_or_point(s[i as int]) ==> spec_parse_val(s, i) == match spec_parse_number(s, i) {
            Ok((n, j)) => Ok((Json::Number(n.0, n.1), j)),
            Err(e) => Err(e),
        },
        !digit_or_point(s[i as int]) && s[i as int] != '"' && s[i as int] != 'n' && s[i as int]
            != 't' && s[i as int] != 'f' ==> spec_parse_val(s, i) == Ok::<(Json, nat), ParseError>(
            (Json::Number(Seq::empty(), Seq::empty()), i),
        ),
{
    if !digit_or_point(s[i as int]) {
        lemma_number_end_to(s, i, i);
        assert(!has_point(s, i, i));
        assert(!has_two_points(s, i, i));
        assert(s.subrange(i as int, i as int) =~= Seq::<char>::empty());
        assert(digit_values(Seq::<char>::empty()) =~= Seq::<u8>::empty());
    }
}

/// A string with no closing `"` is refused, and so is one that does not start with `"`.
pub proof fn lemma_string_errors(s: Seq<char>, i: nat)
    requires
        i < s.len(),
    ensures
        s[i as int] != '"' ==> spec_parse_string(s, i) == Err::<(Seq<char>, nat), ParseError>(
            ParseError::ExpectedOpenQuote,
        ),
        s[i as int] == '"' && (forall|x: int| i < x < s.len() ==> #[trigger] s[x] != '"')
            ==> spec_parse_string(s, i) == Err::<(Seq<char>, nat), ParseError>(
            ParseError::ExpectedCloseQuote,
        ),
{
    lemma_find_quote(s, i + 1);
    let f = find_quote(s, i + 1);
    if s[i as int] == '"' && (forall|x: int| i < x < s.len() ==> #[trigger] s[x] != '"') {
        if f < s.len() {
            assert(s[f as int] == '"');
        }
    }
}

/// A run of digits and points that holds two points is refused.
pub proof fn lemma_number_two_points(s: Seq<char>, i: nat, a: nat, b: nat, e: nat)
    requires
        i <= a < b < e <= s.len(),
        forall|x: int| i <= x < e ==> digit_or_point(#[trigger] s[x]),
        e < s.len() ==> !digit_or_point(s[e as int]),
        s[a as int] == '.',
        s[b as int] == '.',
    ensures
        spec_parse_number(s, i) == Err::<((Seq<u8>, Seq<u8>), nat), ParseError>(
            ParseError::RepeatedPoint,
        ),
{
    assert forall|x: int| i <= x < e implies is_number_char(#[trigger] s[x]) by {
        assert(digit_or_point(s[x]));
    }
    lemma_number_end_to(s, i, e);
    assert(s[a as int] == '.' && s[b as int] == '.');
    assert(has_two_points(s, i, e));
}

/// A key that is not followed directly by `:` is refused.
pub proof fn lemma_pair_needs_colon(s: Seq<char>, i: nat, e: nat)
    requires
        i < e < s.len(),
        s[i as int] == '"',
        s[e as int] == '"',
        forall|x: int| i < x < e ==> #[trigger] s[x] != '"',
    ensures
        e + 1 == s.len() ==> spec_parse_pair(s, i) == Err::<((Seq<char>, Json), nat), ParseError>(
            ParseError::UnexpectedEnd,
        ),
        e + 1 < s.len() && s[e + 1int] != ':' ==> spec_parse_pair(s, i) == Err::<
            ((Seq<char>, Json), nat),
            ParseError,
        >(ParseError::ExpectedColon),
{
    lemma_string_reads_enclosed_text(s, i, e);
}

/// A document reads as the value that its text holds from the start.
pub proof fn lemma_parse_reads_from_start(s: Seq<char>)
    ensures
        spec_parse(s) == match spec_parse_object(s, 0) {
            Ok((v, _)) => Ok(v),
            Err(e) => Err(e),
        },
{
}

} // verus!
