use vstd::prelude::*;

use crate::error::AnalysisError;

verus! {

/// Whether `c` is an ASCII decimal digit.
pub open spec fn is_digit(c: char) -> bool {
    '0' <= c <= '9'
}

/// The value of the decimal digit `c`.
pub open spec fn digit_value(c: char) -> int {
    c as int - '0' as int
}

/// The number that the decimal digits `s` write, most significant first.
pub open spec fn digits_value(s: Seq<char>) -> int
    decreases s.len(),
{
    if s.len() == 0 {
        0
    } else {
        digits_value(s.drop_last()) * 10 + digit_value(s.last())
    }
}

/// `s` without one leading plus sign.
pub open spec fn unsigned_part(s: Seq<char>) -> Seq<char> {
    if s.len() > 0 && s[0] == '+' {
        s.drop_first()
    } else {
        s
    }
}

/// The `usize` that `s` writes in decimal, with an optional leading `+`, as
/// `usize::from_str` reads it: at least one digit, nothing else, and no more
/// than `usize::MAX`.
pub open spec fn count_value(s: Seq<char>) -> Option<int> {
    let d = unsigned_part(s);
    if d.len() > 0 && (forall|i: int| 0 <= i < d.len() ==> is_digit(#[trigger] d[i]))
        && digits_value(d) <= usize::MAX {
        Some(digits_value(d))
    } else {
        None
    }
}

/// What `str::trim` leaves of a text.
pub uninterp spec fn trim_of(s: Seq<char>) -> Seq<char>;

/// Relies on `str::trim`: the text without leading and trailing white space,
/// which depends on the characters alone.
#[verifier::external_body]
fn trimmed(s: &str) -> (r: &str)
    ensures
        r@ == trim_of(s@),
{
    s.trim()
}

/// The pieces of `s` between commas, as `str::split(',')` gives them: one
/// more piece than there are commas.
pub open spec fn split_commas(s: Seq<char>) -> Seq<Seq<char>>
    decreases s.len(),
{
    if s.len() == 0 {
        seq![Seq::empty()]
    } else {
        let rest = split_commas(s.drop_last());
        if s.last() == ',' {
            rest.push(Seq::empty())
        } else {
            rest.update(rest.len() - 1, rest.last().push(s.last()))
        }
    }
}

proof fn lemma_split_nonempty(s: Seq<char>)
    ensures
        split_commas(s).len() >= 1,
    decreases s.len(),
{
    if s.len() > 0 {
        lemma_split_nonempty(s.drop_last());
    }
}

proof fn lemma_digits_grow(d: Seq<char>, k: int)
    requires
        0 <= k <= d.len(),
        forall|i: int| 0 <= i < d.len() ==> is_digit(#[trigger] d[i]),
    ensures
        digits_value(d.take(k)) <= digits_value(d),
    decreases d.len() - k,
{
    if k < d.len() {
        lemma_digits_grow(d, k + 1);
        assert(d.take(k + 1).drop_last() =~= d.take(k));
        assert(digits_value(d.take(k)) >= 0) by {
            lemma_digits_nonneg(d.take(k));
        }
    } else {
        assert(d.take(k) =~= d);
    }
}

proof fn lemma_digits_nonneg(d: Seq<char>)
    requires
        forall|i: int| 0 <= i < d.len() ==> is_digit(#[trigger] d[i]),
    ensures
        digits_value(d) >= 0,
    decreases d.len(),
{
    if d.len() > 0 {
        lemma_digits_nonneg(d.drop_last());
    }
}

/// Reads a count written in decimal, as `usize::from_str` does.
pub fn parse_count(s: &str) -> (r: Option<usize>)
    ensures
        match r {
            Some(v) => count_value(s@) == Some(v as int),
            None => count_value(s@) is None,
        },
{
    let n = s.unicode_len();
    let mut start: usize = 0;
    if n > 0 && s.get_char(0) == '+' {
        start = 1;
    }
    let ghost d = unsigned_part(s@);
    assert(d =~= s@.subrange(start as int, n as int));
    if start == n {
        return None;
    }
    let mut value: usize = 0;
    let mut i: usize = start;
    while i < n
        invariant
            start <= i <= n,
            n == s@.len(),
            d == s@.subrange(start as int, n as int),
            d == unsigned_part(s@),
            forall|k: int| 0 <= k < i - start ==> is_digit(#[trigger] d[k]),
            value as int == digits_value(d.take(i - start)),
        decreases n - i,
    {
        let c = s.get_char(i);
        if c < '0' || c > '9' {
            assert(!is_digit(d[i - start]));
            return None;
        }
        let digit = (c as u32 - '0' as u32) as u128;
        let next: u128 = value as u128 * 10 + digit;
        assert(d.take(i - start + 1).drop_last() =~= d.take(i - start));
        assert(next as int == digits_value(d.take(i - start + 1)));
        if next > usize::MAX as u128 {
            proof {
                if forall|k: int| 0 <= k < d.len() ==> is_digit(#[trigger] d[k]) {
                    lemma_digits_grow(d, i - start + 1);
                }
            }
            return None;
        }
        value = next as usize;
        i = i + 1;
    }
    assert(d.take(n - start) =~= d);
    Some(value)
}

/// Splits `s` at every comma.
fn split_at_commas(s: &str) -> (r: Vec<&str>)
    ensures
        r@.len() == split_commas(s@).len(),
        forall|k: int| 0 <= k < r@.len() ==> #[trigger] r@[k]@ == split_commas(s@)[k],
{
    let n = s.unicode_len();
    let mut pieces: Vec<&str> = Vec::new();
    let mut start: usize = 0;
    let mut i: usize = 0;
    while i < n
        invariant
            start <= i <= n,
            n == s@.len(),
            pieces@.len() + 1 == split_commas(s@.take(i as int)).len(),
            forall|k: int|
                0 <= k < pieces@.len() ==> #[trigger] pieces@[k]@ == split_commas(
                    s@.take(i as int),
                )[k],
            split_commas(s@.take(i as int)).last() == s@.subrange(start as int, i as int),
        decreases n - i,
    {
        let ghost before = split_commas(s@.take(i as int));
        assert(s@.take(i + 1).drop_last() =~= s@.take(i as int));
        if s.get_char(i) == ',' {
            pieces.push(s.substring_char(start, i));
            start = i + 1;
            assert(s@.subrange(start as int, i + 1) =~= Seq::<char>::empty());
        } else {
            assert(s@.subrange(start as int, i + 1) =~= s@.subrange(start as int, i as int).push(
                s@[i as int],
            ));
        }
        i = i + 1;
    }
    pieces.push(s.substring_char(start, n));
    assert(s@.take(n as int) =~= s@);
    pieces
}

/// The texts that a column selection is read from: the pieces of the trimmed
/// line between commas, each trimmed, when several columns may be chosen; the
/// trimmed line as one piece otherwise.
pub open spec fn selection_pieces(line: Seq<char>, allow_multiple: bool) -> Seq<Seq<char>> {
    if allow_multiple {
        split_commas(trim_of(line)).map_values(|p: Seq<char>| trim_of(p))
    } else {
        seq![trim_of(line)]
    }
}

/// Whether `piece` is the number of one of `n` columns, counted from one.
pub open spec fn is_column_number(piece: Seq<char>, n: nat) -> bool {
    match count_value(piece) {
        Some(v) => 1 <= v <= n,
        None => false,
    }
}

/// The error that a selection piece which is no column number gives: a text
/// that is no number, or a number out of range.
pub open spec fn selection_error(piece: Seq<char>, e: AnalysisError) -> bool {
    match count_value(piece) {
        None => match e {
            AnalysisError::InvalidNumber(t) => t@ == piece,
            _ => false,
        },
        Some(v) => e == AnalysisError::ColumnNumberOutOfRange(v as usize),
    }
}

/// The header names that the column numbers typed on `line` choose, in the
/// order typed; numbers count from one.
pub fn parse_column_selection(line: &str, headers: &Vec<String>, allow_multiple: bool) -> (r:
    Result<Vec<String>, AnalysisError>)
    ensures
        match r {
            Ok(names) => chosen_by(selection_pieces(line@, allow_multiple), headers@, names@),
            Err(e) => rejects_first(selection_pieces(line@, allow_multiple), headers@.len(), e),
        },
{
    let ghost pieces = selection_pieces(line@, allow_multiple);
    let text = trimmed(line);
    let mut parts: Vec<&str> = Vec::new();
    if allow_multiple {
        let split = split_at_commas(text);
        let mut k: usize = 0;
        while k < split.len()
            invariant
                k <= split@.len(),
                parts@.len() == k,
                forall|j: int| 0 <= j < k ==> #[trigger] parts@[j]@ == trim_of(split@[j]@),
            decreases split.len() - k,
        {
            parts.push(trimmed(split[k]));
            k = k + 1;
        }
        assert forall|j: int| 0 <= j < parts@.len() implies #[trigger] parts@[j]@ == pieces[j] by {
            assert(split@[j]@ == split_commas(text@)[j]);
        }
    } else {
        parts.push(text);
    }
    assert(parts@.len() == pieces.len());
    proof {
        assert(parts@.map_values(|t: &str| t@) =~= pieces);
    }
    select_by_numbers(&parts, headers)
}

/// Whether `names` are the headers that the column numbers `pieces` choose,
/// in order, every piece being the number of a column counted from one.
pub open spec fn chosen_by(pieces: Seq<Seq<char>>, headers: Seq<String>, names: Seq<String>) -> bool {
    &&& names.len() == pieces.len()
    &&& forall|k: int|
        0 <= k < pieces.len() ==> is_column_number(#[trigger] pieces[k], headers.len()) && names[k]@
            == headers[count_value(pieces[k])->Some_0 - 1]@
}

/// Whether `e` reports the first of `pieces` that is no column number.
pub open spec fn rejects_first(pieces: Seq<Seq<char>>, n: nat, e: AnalysisError) -> bool {
    exists|k: int|
        0 <= k < pieces.len() && !is_column_number(pieces[k], n) && (forall|j: int|
            0 <= j < k ==> is_column_number(#[trigger] pieces[j], n)) && selection_error(
            pieces[k],
            e,
        )
}

/// The headers that the already trimmed column numbers `parts` choose; numbers
/// count from one.
pub fn select_by_numbers(parts: &Vec<&str>, headers: &Vec<String>) -> (r: Result<
    Vec<String>,
    AnalysisError,
>)
    ensures
        match r {
            Ok(names) => chosen_by(parts@.map_values(|t: &str| t@), headers@, names@),
            Err(e) => rejects_first(parts@.map_values(|t: &str| t@), headers@.len(), e),
        },
{
    let ghost pieces = parts@.map_values(|t: &str| t@);
    let mut names: Vec<String> = Vec::new();
    let mut k: usize = 0;
    while k < parts.len()
        invariant
            k <= parts@.len(),
            pieces == parts@.map_values(|t: &str| t@),
            names@.len() == k,
            forall|j: int|
                0 <= j < k ==> is_column_number(#[trigger] pieces[j], headers@.len()) && names@[j]@
                    == headers@[count_value(pieces[j])->Some_0 - 1]@,
        decreases parts.len() - k,
    {
        assert(parts@[k as int]@ == pieces[k as int]);
        match parse_count(parts[k]) {
            None => {
                let e = AnalysisError::InvalidNumber(parts[k].to_owned());
                assert(selection_error(pieces[k as int], e));
                assert(!is_column_number(pieces[k as int], headers@.len()));
                return Err(e);
            },
            Some(index) => {
                if index == 0 || index > headers.len() {
                    let e = AnalysisError::ColumnNumberOutOfRange(index);
                    assert(selection_error(pieces[k as int], e));
                    assert(!is_column_number(pieces[k as int], headers@.len()));
                    return Err(e);
                }
                names.push(headers[index - 1].clone());
            },
        }
        k = k + 1;
    }
    Ok(names)
}

} // verus!
