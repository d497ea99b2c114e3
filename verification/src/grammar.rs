//! The entry-name grammar: names of the form
//! `<prefix>_<int>_<int>_<float>_<float>[_<suffix>]`, split on ASCII
//! underscores.  Field 1 is the grid row, field 2 the grid column, field 3
//! the camera's x offset and field 4 its y offset (0-based field indices).

use vstd::prelude::*;
use vstd::string::*;

verus! {

/// A decimal digit.
pub open spec fn is_dec_digit(c: char) -> bool {
    '0' <= c && c <= '9'
}

/// Every character of `s` is a decimal digit.
pub open spec fn all_dec_digits(s: Seq<char>) -> bool {
    forall|i: int| 0 <= i < s.len() ==> is_dec_digit(#[trigger] s[i])
}

/// Index of the first occurrence of `sep` in `s` at or after `from`;
/// `s.len()` if there is none.
pub open spec fn find_char(s: Seq<char>, sep: char, from: int) -> int
    decreases s.len() - from,
{
    if from < 0 || from >= s.len() {
        s.len() as int
    } else if s[from] == sep {
        from
    } else {
        find_char(s, sep, from + 1)
    }
}

pub proof fn lemma_find_char_bounds(s: Seq<char>, sep: char, from: int)
    requires
        0 <= from,
    ensures
        find_char(s, sep, from) <= s.len(),
        from <= s.len() ==> from <= find_char(s, sep, from),
    decreases s.len() - from,
{
    if from < s.len() && s[from] != sep {
        lemma_find_char_bounds(s, sep, from + 1);
    }
}

/// The underscore-separated fields of `s`, starting at position `from`:
/// the text up to the next underscore, then the fields after it.
pub open spec fn fields_from(s: Seq<char>, from: int) -> Seq<Seq<char>>
    decreases s.len() - from,
    via fields_from_decreases
{
    if from < 0 {
        Seq::empty()
    } else {
        let j = find_char(s, '_', from);
        if j >= s.len() {
            seq![s.subrange(from, s.len() as int)]
        } else {
            seq![s.subrange(from, j)] + fields_from(s, j + 1)
        }
    }
}

#[via_fn]
proof fn fields_from_decreases(s: Seq<char>, from: int) {
    if 0 <= from {
        lemma_find_char_bounds(s, '_', from);
    }
}

/// The underscore-separated fields of a whole name.  There is always at
/// least one field; an underscore at either end contributes an empty field.
pub open spec fn fields_of(s: Seq<char>) -> Seq<Seq<char>> {
    fields_from(s, 0)
}

/// Splits `s` on ASCII underscores, yielding exactly the fields of the
/// grammar in order.
pub fn split_fields(s: &str) -> (fields: Vec<String>)
    ensures
        fields.deep_view() == fields_of(s@),
{
    let n = s.unicode_len();
    let mut fields: Vec<String> = Vec::new();
    let mut from: usize = 0;
    loop
        invariant_except_break
            n == s@.len(),
            from <= n,
            fields_of(s@) == fields.deep_view() + fields_from(s@, from as int),
        ensures
            fields.deep_view() == fields_of(s@),
        decreases n + 1 - from,
    {
        let mut j: usize = from;
        while j < n && s.get_char(j) != '_'
            invariant
                n == s@.len(),
                from <= j <= n,
                find_char(s@, '_', from as int) == find_char(s@, '_', j as int),
            decreases n - j,
        {
            proof {
                assert(find_char(s@, '_', j as int) == find_char(s@, '_', j + 1));
            }
            j += 1;
        }
        proof {
            assert(find_char(s@, '_', from as int) == j as int);
        }
        let field = s.substring_char(from, j);
        let owned: String = field.to_owned();
        let ghost old_fields = fields.deep_view();
        fields.push(owned);
        proof {
            assert(fields.deep_view() =~= old_fields.push(field@));
        }
        if j == n {
            break;
        }
        from = j + 1;
    }
    fields
}

/// `s` without one leading `+` or `-`, if any.
pub open spec fn unsigned_part(s: Seq<char>) -> Seq<char> {
    if s.len() > 0 && (s[0] == '+' || s[0] == '-') {
        s.drop_first()
    } else {
        s
    }
}

/// A leading `-` makes a numeric literal negative.
pub open spec fn is_negative(s: Seq<char>) -> bool {
    s.len() > 0 && s[0] == '-'
}

/// A signed base-10 integer literal: an optional sign, then one or more
/// decimal digits.
pub open spec fn is_int_literal(s: Seq<char>) -> bool {
    unsigned_part(s).len() > 0 && all_dec_digits(unsigned_part(s))
}

/// The value of a digit string, most significant digit first.
pub open spec fn digits_val(s: Seq<char>) -> int
    decreases s.len(),
{
    if s.len() == 0 {
        0
    } else {
        digits_val(s.drop_last()) * 10 + (s.last() as int - '0' as int)
    }
}

/// The mathematical value of an integer literal.
pub open spec fn int_literal_value(s: Seq<char>) -> int {
    if is_negative(s) {
        -digits_val(unsigned_part(s))
    } else {
        digits_val(unsigned_part(s))
    }
}

/// An integer literal whose value fits in an `i32`.
pub open spec fn is_i32_literal(s: Seq<char>) -> bool {
    is_int_literal(s) && -0x8000_0000 <= int_literal_value(s) <= 0x7fff_ffff
}

pub proof fn lemma_digits_val_nonneg(s: Seq<char>)
    requires
        all_dec_digits(s),
    ensures
        digits_val(s) >= 0,
    decreases s.len(),
{
    if s.len() > 0 {
        assert(all_dec_digits(s.drop_last()));
        lemma_digits_val_nonneg(s.drop_last());
    }
}

/// Digit strings only grow in value as digits are appended.
pub proof fn lemma_digits_val_prefix_le(s: Seq<char>, i: int)
    requires
        all_dec_digits(s),
        0 <= i <= s.len(),
    ensures
        digits_val(s.subrange(0, i)) <= digits_val(s),
    decreases s.len() - i,
{
    if i < s.len() {
        let t = s.subrange(0, i + 1);
        assert(t.drop_last() =~= s.subrange(0, i));
        assert(all_dec_digits(s.subrange(0, i)));
        lemma_digits_val_nonneg(s.subrange(0, i));
        assert(digits_val(t) == digits_val(s.subrange(0, i)) * 10 + (s[i] as int - '0' as int));
        lemma_digits_val_prefix_le(s, i + 1);
    } else {
        assert(s.subrange(0, i) =~= s);
    }
}

/// Parses a signed base-10 integer literal into an `i32`.  Returns `None`
/// exactly when `s` is not an integer literal or its value does not fit.
pub fn parse_i32(s: &str) -> (r: Option<i32>)
    ensures
        r is Some <==> is_i32_literal(s@),
        r matches Some(v) ==> v as int == int_literal_value(s@),
{
    let n = s.unicode_len();
    if n == 0 {
        return None;
    }
    let c0 = s.get_char(0);
    let neg = c0 == '-';
    let start: usize = if c0 == '-' || c0 == '+' {
        1
    } else {
        0
    };
    let ghost body = unsigned_part(s@);
    proof {
        assert(body =~= s@.subrange(start as int, n as int));
    }
    if start == n {
        return None;
    }
    let mut acc: u64 = 0;
    let mut i: usize = start;
    while i < n
        invariant
            n == s@.len(),
            start <= i <= n,
            start <= 1,
            body == unsigned_part(s@),
            body == s@.subrange(start as int, n as int),
            all_dec_digits(s@.subrange(start as int, i as int)),
            acc as int == digits_val(s@.subrange(start as int, i as int)),
            acc <= 0x8000_0000,
        decreases n - i,
    {
        let c = s.get_char(i);
        let u = c as u32;
        if u < 48 || u > 57 {
            proof {
                assert(body[i - start] == s@[i as int]);
                assert(!is_dec_digit(s@[i as int]));
            }
            return None;
        }
        let d = (u - 48) as u64;
        proof {
            let pre = s@.subrange(start as int, i as int);
            let ext = s@.subrange(start as int, i + 1);
            assert(ext.drop_last() =~= pre);
            assert(ext.last() == s@[i as int]);
            assert(digits_val(ext) == digits_val(pre) * 10 + (s@[i as int] as int - '0' as int));
            assert(forall|k: int|
                0 <= k < ext.len() ==> is_dec_digit(#[trigger] ext[k]));
        }
        acc = acc * 10 + d;
        i += 1;
        if acc > 0x8000_0000 {
            proof {
                if is_i32_literal(s@) {
                    assert(all_dec_digits(body));
                    assert(s@.subrange(start as int, i as int)
                        =~= body.subrange(0, i - start));
                    lemma_digits_val_prefix_le(body, i - start);
                }
            }
            return None;
        }
    }
    proof {
        assert(s@.subrange(start as int, i as int) =~= body);
        assert(is_int_literal(s@));
    }
    if neg {
        if acc == 0x8000_0000 {
            Some(-0x8000_0000)
        } else {
            Some(-(acc as i32))
        }
    } else {
        if acc == 0x8000_0000 {
            None
        } else {
            Some(acc as i32)
        }
    }
}

/// How many times `c` occurs in `s`.
pub open spec fn count_char(s: Seq<char>, c: char) -> int
    decreases s.len(),
{
    if s.len() == 0 {
        0
    } else {
        count_char(s.drop_last(), c) + if s.last() == c {
            1int
        } else {
            0int
        }
    }
}

/// Occurrences in a prefix are no more than occurrences in the whole.
pub proof fn lemma_count_char_prefix_le(s: Seq<char>, i: int, c: char)
    requires
        0 <= i <= s.len(),
    ensures
        count_char(s.subrange(0, i), c) <= count_char(s, c),
    decreases s.len() - i,
{
    if i < s.len() {
        let t = s.subrange(0, i + 1);
        assert(t.drop_last() =~= s.subrange(0, i));
        lemma_count_char_prefix_le(s, i + 1, c);
    } else {
        assert(s.subrange(0, i) =~= s);
    }
}

/// The mantissa of a float literal: digits with at most one decimal point
/// among them, and at least one digit (`7`, `1.5`, `.25` and `3.` all
/// qualify; `.` and `abc` do not).
pub open spec fn is_mantissa(m: Seq<char>) -> bool {
    &&& forall|i: int| 0 <= i < m.len() ==> is_dec_digit(#[trigger] m[i]) || m[i] == '.'
    &&& count_char(m, '.') <= 1
    &&& m.len() > count_char(m, '.')
}

/// Index of the first exponent marker (`e` or `E`) in `s` at or after
/// `from`; `s.len()` if there is none.
pub open spec fn find_exp(s: Seq<char>, from: int) -> int
    decreases s.len() - from,
{
    if from < 0 || from >= s.len() {
        s.len() as int
    } else if s[from] == 'e' || s[from] == 'E' {
        from
    } else {
        find_exp(s, from + 1)
    }
}

/// A base-10 float literal: an optional sign, a mantissa, and an optional
/// exponent part (`e` or `E` followed by an integer literal).
pub open spec fn is_float_literal(s: Seq<char>) -> bool {
    let b = unsigned_part(s);
    let j = find_exp(b, 0);
    if j >= b.len() {
        is_mantissa(b)
    } else {
        is_mantissa(b.subrange(0, j)) && is_int_literal(b.subrange(j + 1, b.len() as int))
    }
}

/// Decides whether `s` is a signed base-10 integer literal, without regard
/// to any machine-integer range.
pub fn is_int_syntax(s: &str) -> (r: bool)
    ensures
        r == is_int_literal(s@),
{
    let n = s.unicode_len();
    if n == 0 {
        return false;
    }
    let c0 = s.get_char(0);
    let start: usize = if c0 == '-' || c0 == '+' {
        1
    } else {
        0
    };
    let ghost body = unsigned_part(s@);
    proof {
        assert(body =~= s@.subrange(start as int, n as int));
    }
    if start == n {
        return false;
    }
    let mut i: usize = start;
    while i < n
        invariant
            n == s@.len(),
            start <= i <= n,
            body == unsigned_part(s@),
            body == s@.subrange(start as int, n as int),
            all_dec_digits(s@.subrange(start as int, i as int)),
        decreases n - i,
    {
        let c = s.get_char(i);
        let u = c as u32;
        if u < 48 || u > 57 {
            proof {
                assert(body[i - start] == s@[i as int]);
                assert(!is_dec_digit(s@[i as int]));
            }
            return false;
        }
        proof {
            let pre = s@.subrange(start as int, i as int);
            let ext = s@.subrange(start as int, i + 1);
            assert(ext.drop_last() =~= pre);
            assert(forall|k: int|
                0 <= k < ext.len() ==> is_dec_digit(#[trigger] ext[k]));
        }
        i += 1;
    }
    proof {
        assert(s@.subrange(start as int, i as int) =~= body);
    }
    true
}

/// Decides whether `m` is a valid mantissa.
fn check_mantissa(m: &str) -> (r: bool)
    ensures
        r == is_mantissa(m@),
{
    let n = m.unicode_len();
    let mut i: usize = 0;
    let mut dots: usize = 0;
    let mut digit_seen = false;
    while i < n
        invariant
            n == m@.len(),
            i <= n,
            forall|k: int| 0 <= k < i ==> is_dec_digit(#[trigger] m@[k]) || m@[k] == '.',
            dots as int == count_char(m@.subrange(0, i as int), '.'),
            dots <= 1,
            dots <= i,
            digit_seen == (dots < i),
        decreases n - i,
    {
        let c = m.get_char(i);
        let u = c as u32;
        proof {
            let pre = m@.subrange(0, i as int);
            let ext = m@.subrange(0, i + 1);
            assert(ext.drop_last() =~= pre);
            assert(ext.last() == m@[i as int]);
        }
        if u == 46 {
            if dots == 1 {
                proof {
                    lemma_count_char_prefix_le(m@, i + 1, '.');
                }
                return false;
            }
            dots += 1;
        } else if u >= 48 && u <= 57 {
            digit_seen = true;
        } else {
            return false;
        }
        i += 1;
    }
    proof {
        assert(m@.subrange(0, i as int) =~= m@);
    }
    digit_seen
}

/// Position of the first exponent marker in `b`, or its length.
fn find_exp_pos(b: &str) -> (j: usize)
    ensures
        j as int == find_exp(b@, 0),
        j <= b@.len(),
{
    let n = b.unicode_len();
    let mut j: usize = 0;
    while j < n && b.get_char(j) != 'e' && b.get_char(j) != 'E'
        invariant
            n == b@.len(),
            j <= n,
            find_exp(b@, 0) == find_exp(b@, j as int),
        decreases n - j,
    {
        proof {
            assert(find_exp(b@, j as int) == find_exp(b@, j + 1));
        }
        j += 1;
    }
    proof {
        assert(find_exp(b@, j as int) == j as int || j == n);
    }
    j
}

/// Decides whether `s` is a base-10 float literal.
pub fn is_float_syntax(s: &str) -> (r: bool)
    ensures
        r == is_float_literal(s@),
{
    let n = s.unicode_len();
    if n == 0 {
        return false;
    }
    let c0 = s.get_char(0);
    let start: usize = if c0 == '-' || c0 == '+' {
        1
    } else {
        0
    };
    let b = s.substring_char(start, n);
    proof {
        assert(b@ =~= unsigned_part(s@));
    }
    let m = b.unicode_len();
    let j = find_exp_pos(b);
    let mant = b.substring_char(0, j);
    let mant_ok = check_mantissa(mant);
    if j == m {
        proof {
            assert(b@.subrange(0, j as int) =~= b@);
        }
        mant_ok
    } else {
        let exp = b.substring_char(j + 1, m);
        let exp_ok = is_int_syntax(exp);
        mant_ok && exp_ok
    }
}

/// Which numeric type a malformed field failed to parse as.
#[derive(Clone, Copy, Debug, PartialEq, Eq)]
pub enum NumberKind {
    Int,
    Float,
}

/// Why an entry name does not match the grammar.
#[derive(Clone, Debug, PartialEq, Eq)]
pub enum ParseError {
    /// The name has fewer than five underscore-separated fields; carries
    /// the whole name.
    InvalidFormat(String),
    /// A numeric field does not parse as the expected type (for an `Int`
    /// field this includes values outside `i32`); carries the field text.
    InvalidNumber(String, NumberKind),
}

/// The name has at least the five fields the grammar asks for.
pub open spec fn has_enough_fields(s: Seq<char>) -> bool {
    fields_of(s).len() >= 5
}

/// The grid-row field (second field of the name).
pub open spec fn row_field(s: Seq<char>) -> Seq<char> {
    fields_of(s)[1]
}

/// The grid-column field (third field of the name).
pub open spec fn col_field(s: Seq<char>) -> Seq<char> {
    fields_of(s)[2]
}

/// The camera x-offset field (fourth field of the name).
pub open spec fn x_field(s: Seq<char>) -> Seq<char> {
    fields_of(s)[3]
}

/// The camera y-offset field (fifth field of the name).
pub open spec fn y_field(s: Seq<char>) -> Seq<char> {
    fields_of(s)[4]
}

/// The whole naming contract: five fields, the row and column fields
/// integer literals in `i32` range, the two offset fields float literals.
pub open spec fn name_parses(s: Seq<char>) -> bool {
    &&& has_enough_fields(s)
    &&& is_i32_literal(row_field(s))
    &&& is_i32_literal(col_field(s))
    &&& is_float_literal(x_field(s))
    &&& is_float_literal(y_field(s))
}

/// The error a name that breaks the grammar is reported with: the first
/// failing check, in field order.
pub open spec fn name_error_spec(n: Seq<char>, e: ParseError) -> bool {
    if !has_enough_fields(n) {
        e matches ParseError::InvalidFormat(w) && w@ == n
    } else if !is_i32_literal(row_field(n)) {
        e matches ParseError::InvalidNumber(f, k) && f@ == row_field(n) && k == NumberKind::Int
    } else if !is_i32_literal(col_field(n)) {
        e matches ParseError::InvalidNumber(f, k) && f@ == col_field(n) && k == NumberKind::Int
    } else if !is_float_literal(x_field(n)) {
        e matches ParseError::InvalidNumber(f, k) && f@ == x_field(n) && k == NumberKind::Float
    } else if !is_float_literal(y_field(n)) {
        e matches ParseError::InvalidNumber(f, k) && f@ == y_field(n) && k == NumberKind::Float
    } else {
        false
    }
}

/// Parses an entry name into `(row, col, x, y)`: the grid row and column
/// indices and the textual camera offsets, which are the second to fifth
/// underscore-separated fields of the name.  Fields past the fifth are
/// ignored.
pub fn parse_name(name: &str) -> (r: Result<(i32, i32, String, String), ParseError>)
    ensures
        r is Ok <==> name_parses(name@),
        r matches Ok(t) ==> {
            &&& t.0 as int == int_literal_value(row_field(name@))
            &&& t.1 as int == int_literal_value(col_field(name@))
            &&& t.2@ == x_field(name@)
            &&& t.3@ == y_field(name@)
        },
        r matches Err(e) ==> name_error_spec(name@, e),
{
    let fields = split_fields(name);
    proof {
        assert(fields.deep_view().len() == fields@.len());
    }
    if fields.len() < 5 {
        return Err(ParseError::InvalidFormat(name.to_owned()));
    }
    proof {
        assert(fields.deep_view()[1] == fields@[1]@);
        assert(fields.deep_view()[2] == fields@[2]@);
        assert(fields.deep_view()[3] == fields@[3]@);
        assert(fields.deep_view()[4] == fields@[4]@);
    }
    let row = match parse_i32(fields[1].as_str()) {
        Some(v) => v,
        None => {
            return Err(ParseError::InvalidNumber(fields[1].clone(), NumberKind::Int));
        },
    };
    let col = match parse_i32(fields[2].as_str()) {
        Some(v) => v,
        None => {
            return Err(ParseError::InvalidNumber(fields[2].clone(), NumberKind::Int));
        },
    };
    if !is_float_syntax(fields[3].as_str()) {
        return Err(ParseError::InvalidNumber(fields[3].clone(), NumberKind::Float));
    }
    if !is_float_syntax(fields[4].as_str()) {
        return Err(ParseError::InvalidNumber(fields[4].clone(), NumberKind::Float));
    }
    Ok((row, col, fields[3].clone(), fields[4].clone()))
}

} // verus!
