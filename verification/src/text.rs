use vstd::prelude::*;

verus! {

/// Relies on std's `String::push`, which appends the given character to the
/// end of the string.
pub assume_specification[ String::push ](s: &mut String, c: char)
    ensures
        final(s)@ == old(s)@.push(c),
;

/// An ASCII decimal digit.
pub open spec fn is_digit_char(c: char) -> bool {
    48 <= c as u32 <= 57
}

/// The numeric value of an ASCII decimal digit.
pub open spec fn digit_val(c: char) -> nat {
    (c as u32 - 48) as nat
}

/// A character admitted inside an identifier: ASCII alphanumeric
/// plus `.`, `_` and `$`.
pub open spec fn is_id_char(c: char) -> bool {
    ||| is_digit_char(c)
    ||| 65 <= c as u32 <= 90
    ||| 97 <= c as u32 <= 122
    ||| c == '.'
    ||| c == '_'
    ||| c == '$'
}

pub(crate) fn char_is_digit(c: char) -> (r: bool)
    ensures
        r == is_digit_char(c),
{
    let u = c as u32;
    48 <= u && u <= 57
}

pub(crate) fn char_is_id(c: char) -> (r: bool)
    ensures
        r == is_id_char(c),
{
    let u = c as u32;
    (48 <= u && u <= 57) || (65 <= u && u <= 90) || (97 <= u && u <= 122) || c == '.' || c == '_'
        || c == '$'
}

/// A class of characters that the scanner searches for.
#[derive(Clone, Copy, Debug)]
pub enum FindKind {
    /// A line terminator.
    Newline,
    /// The closing parenthesis of a label declaration.
    RightParen,
    /// The `=` or `;` separator of a computation line.
    Separator,
    /// Any character that cannot stand inside an identifier.
    NonId,
    /// Any character that is not an ASCII decimal digit.
    NonDigit,
}

pub open spec fn kind_matches(k: FindKind, c: char) -> bool {
    match k {
        FindKind::Newline => c == '\n',
        FindKind::RightParen => c == ')',
        FindKind::Separator => c == '=' || c == ';',
        FindKind::NonId => !is_id_char(c),
        FindKind::NonDigit => !is_digit_char(c),
    }
}

pub(crate) fn char_kind_matches(k: FindKind, c: char) -> (r: bool)
    ensures
        r == kind_matches(k, c),
{
    match k {
        FindKind::Newline => c == '\n',
        FindKind::RightParen => c == ')',
        FindKind::Separator => c == '=' || c == ';',
        FindKind::NonId => !char_is_id(c),
        FindKind::NonDigit => !char_is_digit(c),
    }
}

/// The index of the first character of `s` in the class `k`, or `s.len()`
/// when there is none.
pub open spec fn find_k(k: FindKind, s: Seq<char>) -> int
    decreases s.len(),
{
    if s.len() == 0 {
        0
    } else if kind_matches(k, s[0]) {
        0
    } else {
        1 + find_k(k, s.skip(1))
    }
}

pub proof fn lemma_find_k(k: FindKind, s: Seq<char>)
    ensures
        0 <= find_k(k, s) <= s.len(),
        find_k(k, s) < s.len() ==> kind_matches(k, s[find_k(k, s)]),
        forall|j: int| 0 <= j < find_k(k, s) ==> !kind_matches(k, s[j]),
    decreases s.len(),
{
    if s.len() == 0 {
    } else if kind_matches(k, s[0]) {
    } else {
        lemma_find_k(k, s.skip(1));
        let f = find_k(k, s);
        if f < s.len() {
            assert(s.skip(1)[f - 1] == s[f]);
        }
        assert forall|j: int| 0 <= j < f implies !kind_matches(k, s[j]) by {
            if j > 0 {
                assert(s.skip(1)[j - 1] == s[j]);
            }
        }
    }
}

/// The first index in `[from, to)` whose character is in the class `k`,
/// or `to` when there is none.
pub(crate) fn find_in(v: &Vec<char>, from: usize, to: usize, k: FindKind) -> (r: usize)
    requires
        from <= to <= v@.len(),
    ensures
        from <= r <= to,
        r - from == find_k(k, v@.subrange(from as int, to as int)),
{
    let mut i = from;
    while i < to
        invariant
            from <= i <= to <= v@.len(),
            find_k(k, v@.subrange(from as int, to as int)) == (i - from) + find_k(
                k,
                v@.subrange(i as int, to as int),
            ),
        decreases to - i,
    {
        let c = v[i];
        proof {
            assert(v@.subrange(i as int, to as int)[0] == v@[i as int]);
        }
        if char_kind_matches(k, c) {
            return i;
        }
        proof {
            assert(v@.subrange(i as int, to as int).skip(1) =~= v@.subrange(
                (i + 1) as int,
                to as int,
            ));
        }
        i += 1;
    }
    proof {
        assert(v@.subrange(to as int, to as int).len() == 0);
    }
    to
}

/// The index of the start of a `//` comment in `s`, or `s.len()` when
/// there is none.
pub open spec fn find_comment(s: Seq<char>) -> int
    decreases s.len(),
{
    if s.len() < 2 {
        s.len() as int
    } else if s[0] == '/' && s[1] == '/' {
        0
    } else {
        1 + find_comment(s.skip(1))
    }
}

pub proof fn lemma_find_comment(s: Seq<char>)
    ensures
        0 <= find_comment(s) <= s.len(),
    decreases s.len(),
{
    if s.len() >= 2 && !(s[0] == '/' && s[1] == '/') {
        lemma_find_comment(s.skip(1));
    }
}

/// The first index in `[from, to)` where a `//` comment starts, or `to`
/// when there is none.
pub(crate) fn find_comment_in(v: &Vec<char>, from: usize, to: usize) -> (r: usize)
    requires
        from <= to <= v@.len(),
    ensures
        from <= r <= to,
        r - from == find_comment(v@.subrange(from as int, to as int)),
{
    let mut i = from;
    while i < to && i + 1 < to
        invariant
            from <= i <= to <= v@.len(),
            find_comment(v@.subrange(from as int, to as int)) == (i - from) + find_comment(
                v@.subrange(i as int, to as int),
            ),
        decreases to - i,
    {
        proof {
            assert(v@.subrange(i as int, to as int)[0] == v@[i as int]);
            assert(v@.subrange(i as int, to as int)[1] == v@[i + 1 as int]);
        }
        if v[i] == '/' && v[i + 1] == '/' {
            return i;
        }
        proof {
            assert(v@.subrange(i as int, to as int).skip(1) =~= v@.subrange(
                (i + 1) as int,
                to as int,
            ));
        }
        i += 1;
    }
    proof {
        assert(v@.subrange(i as int, to as int).len() < 2);
        lemma_find_comment(v@.subrange(i as int, to as int));
    }
    to
}

/// The decimal value of a digit string.
pub open spec fn str_val(s: Seq<char>) -> nat
    decreases s.len(),
{
    if s.len() == 0 {
        0
    } else {
        str_val(s.drop_last()) * 10 + digit_val(s.last())
    }
}

/// Extending a digit string never decreases its value.
pub proof fn lemma_str_val_prefix(s: Seq<char>, i: int)
    requires
        0 <= i <= s.len(),
    ensures
        str_val(s.take(i)) <= str_val(s),
    decreases s.len() - i,
{
    if i == s.len() {
        assert(s.take(i) =~= s);
    } else {
        lemma_str_val_prefix(s.drop_last(), i);
        assert(s.drop_last().take(i) =~= s.take(i));
        assert(str_val(s.drop_last()) * 10 >= str_val(s.drop_last()));
    }
}

/// Reads the decimal value of the digits `v[from..to]`, or reports that it
/// does not fit in 32 bits.
pub(crate) fn parse_digits(v: &Vec<char>, from: usize, to: usize) -> (r: Option<u32>)
    requires
        from <= to <= v@.len(),
        forall|j: int| from <= j < to ==> is_digit_char(v@[j]),
    ensures
        match r {
            Some(x) => x as nat == str_val(v@.subrange(from as int, to as int)),
            None => str_val(v@.subrange(from as int, to as int)) > u32::MAX,
        },
{
    let ghost whole = v@.subrange(from as int, to as int);
    let mut acc: u32 = 0;
    let mut i = from;
    while i < to
        invariant
            from <= i <= to <= v@.len(),
            forall|j: int| from <= j < to ==> is_digit_char(v@[j]),
            whole == v@.subrange(from as int, to as int),
            acc as nat == str_val(v@.subrange(from as int, i as int)),
        decreases to - i,
    {
        let c = v[i];
        assert(is_digit_char(c));
        let d = (c as u32) - 48;
        let ghost prefix = v@.subrange(from as int, i as int);
        let ghost next = v@.subrange(from as int, (i + 1) as int);
        proof {
            assert(next.drop_last() =~= prefix);
            assert(next.last() == v@[i as int]);
            assert(digit_val(c) == d as nat);
        }
        if acc > (u32::MAX - d) / 10 {
            proof {
                assert(str_val(next) == acc as nat * 10 + d as nat);
                assert(acc as nat * 10 + d as nat > u32::MAX) by (nonlinear_arith)
                    requires
                        acc > (u32::MAX - d) / 10,
                        d <= 9,
                ;
                assert(next =~= whole.take((i + 1 - from) as int));
                lemma_str_val_prefix(whole, (i + 1 - from) as int);
            }
            return None;
        }
        proof {
            assert(acc as nat * 10 + d as nat <= u32::MAX) by (nonlinear_arith)
                requires
                    acc <= (u32::MAX - d) / 10,
                    d <= 9,
            ;
        }
        acc = acc * 10 + d;
        i += 1;
    }
    proof {
        assert(v@.subrange(from as int, to as int) == whole);
    }
    Some(acc)
}

/// Character-wise equality of two string slices.
pub(crate) fn str_eq(a: &str, b: &str) -> (r: bool)
    ensures
        r == (a@ == b@),
{
    let na = a.unicode_len();
    let nb = b.unicode_len();
    if na != nb {
        return false;
    }
    let mut i: usize = 0;
    while i < na
        invariant
            na == a@.len(),
            na == b@.len(),
            i <= na,
            forall|j: int| 0 <= j < i ==> a@[j] == b@[j],
        decreases na - i,
    {
        if a.get_char(i) != b.get_char(i) {
            return false;
        }
        i += 1;
    }
    proof {
        assert(a@ =~= b@);
    }
    true
}

/// The characters of a string slice, in order.
pub(crate) fn chars_of(s: &str) -> (r: Vec<char>)
    ensures
        r@ == s@,
{
    let n = s.unicode_len();
    let mut r: Vec<char> = Vec::new();
    let mut i: usize = 0;
    while i < n
        invariant
            n == s@.len(),
            i <= n,
            r@ == s@.subrange(0, i as int),
        decreases n - i,
    {
        let c = s.get_char(i);
        r.push(c);
        proof {
            assert(r@ =~= s@.subrange(0, (i + 1) as int));
        }
        i += 1;
    }
    proof {
        assert(s@.subrange(0, n as int) =~= s@);
    }
    r
}

/// A string holding the characters `v[from..to]`.
pub(crate) fn string_from_range(v: &Vec<char>, from: usize, to: usize) -> (r: String)
    requires
        from <= to <= v@.len(),
    ensures
        r@ == v@.subrange(from as int, to as int),
{
    let mut r = String::new();
    let mut i = from;
    while i < to
        invariant
            from <= i <= to <= v@.len(),
            r@ == v@.subrange(from as int, i as int),
        decreases to - i,
    {
        r.push(v[i]);
        proof {
            assert(r@ =~= v@.subrange(from as int, (i + 1) as int));
        }
        i += 1;
    }
    r
}

} // verus!
