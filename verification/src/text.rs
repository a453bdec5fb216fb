//! Text utilities shared by the two loaders: deriving a file's base name,
//! recognising allograph codes, and extracting the numeric component of an
//! identifier.

use vstd::prelude::*;

verus! {

/// A decimal digit.
pub open spec fn is_digit(c: char) -> bool {
    '0' <= c && c <= '9'
}

/// The numeric value of a decimal digit.
pub open spec fn digit_value(c: char) -> nat
    recommends
        is_digit(c),
{
    ((c as int) - ('0' as int)) as nat
}

/// Whether a character is a decimal digit.
pub fn check_digit(c: char) -> (r: bool)
    ensures
        r == is_digit(c),
{
    '0' <= c && c <= '9'
}

/// The base name of a file name: everything before the first `'.'`, or the
/// whole name if it has none.
pub open spec fn base_name_of(s: Seq<char>) -> Seq<char>
    decreases s.len(),
{
    if s.len() == 0 {
        s
    } else if s[0] == '.' {
        Seq::empty()
    } else {
        seq![s[0]] + base_name_of(s.drop_first())
    }
}

proof fn lemma_base_name_take(s: Seq<char>, i: int)
    requires
        0 <= i <= s.len(),
        forall|j: int| 0 <= j < i ==> s[j] != '.',
        i < s.len() ==> s[i] == '.',
    ensures
        base_name_of(s) == s.take(i),
    decreases i,
{
    if i == 0 {
        if s.len() == 0 {
            assert(s.take(0) =~= s);
        } else {
            assert(s.take(0) =~= Seq::<char>::empty());
        }
    } else {
        let t = s.drop_first();
        assert(forall|j: int| 0 <= j < i - 1 ==> t[j] == s[j + 1] && s[j + 1] != '.');
        lemma_base_name_take(t, i - 1);
        assert(s.take(i) =~= seq![s[0]] + t.take(i - 1));
    }
}

/// Derive the expected record id from a file name by stripping everything
/// from the first `'.'` on.
pub fn base_name(name: &str) -> (r: String)
    ensures
        r@ == base_name_of(name@),
{
    let len = name.unicode_len();
    let mut i: usize = 0;
    while i < len && name.get_char(i) != '.'
        invariant
            0 <= i <= len,
            len == name@.len(),
            forall|j: int| 0 <= j < i ==> name@[j] != '.',
        decreases len - i,
    {
        i += 1;
    }
    proof {
        lemma_base_name_take(name@, i as int);
    }
    name.substring_char(0, i).to_owned()
}

/// An allograph code of the given scheme: the scheme letter followed by
/// exactly three decimal digits, e.g. "V207".
pub open spec fn is_code(s: Seq<char>, scheme: char) -> bool {
    &&& s.len() == 4
    &&& s[0] == scheme
    &&& is_digit(s[1])
    &&& is_digit(s[2])
    &&& is_digit(s[3])
}

/// Whether a code matches its scheme's fixed pattern.
pub fn check_code(code: &String, scheme: char) -> (r: bool)
    ensures
        r == is_code(code@, scheme),
{
    let s = code.as_str();
    if s.unicode_len() != 4 {
        return false;
    }
    s.get_char(0) == scheme && check_digit(s.get_char(1)) && check_digit(s.get_char(2))
        && check_digit(s.get_char(3))
}

/// The digits of a string, in the order they appear.
pub open spec fn digits_of(s: Seq<char>) -> Seq<char> {
    s.filter(|c: char| is_digit(c))
}

/// The number written by a digit string, read in base ten.
pub open spec fn digits_value(ds: Seq<char>) -> nat
    decreases ds.len(),
{
    if ds.len() == 0 {
        0
    } else {
        digits_value(ds.drop_last()) * 10 + digit_value(ds.last())
    }
}

/// Whether a string has a representable numeric component: at least one
/// digit, and a value that fits in a `u64`.
pub open spec fn has_numeric(s: Seq<char>) -> bool {
    digits_of(s).len() > 0 && digits_value(digits_of(s)) <= u64::MAX
}

/// The numeric component of a string: the number written by its digits in
/// the order they appear.
pub open spec fn numeric_of(s: Seq<char>) -> nat
    recommends
        has_numeric(s),
{
    digits_value(digits_of(s))
}

proof fn lemma_digits_push(t: Seq<char>, c: char)
    ensures
        !is_digit(c) ==> digits_of(t.push(c)) == digits_of(t),
        is_digit(c) ==> digits_of(t.push(c)) == digits_of(t).push(c),
        is_digit(c) ==> digits_value(digits_of(t.push(c))) == digits_value(digits_of(t)) * 10
            + digit_value(c),
{
    reveal(Seq::filter);
    assert(t.push(c).drop_last() =~= t);
    assert(t.push(c).last() == c);
    if is_digit(c) {
        assert(digits_of(t).push(c).drop_last() =~= digits_of(t));
    }
}

/// Extract the numeric component of a string: the number written by its
/// digits, read in order of appearance.  Returns `None` when the string
/// holds no digit at all or the value does not fit in a `u64`.
pub fn numeric_component(s: &str) -> (r: Option<u64>)
    ensures
        match r {
            Some(v) => has_numeric(s@) && v == numeric_of(s@),
            None => !has_numeric(s@),
        },
{
    let len = s.unicode_len();
    let mut i: usize = 0;
    let mut acc: u64 = 0;
    let mut any = false;
    let mut overflow = false;
    while i < len
        invariant
            0 <= i <= len,
            len == s@.len(),
            any == (digits_of(s@.take(i as int)).len() > 0),
            overflow ==> digits_value(digits_of(s@.take(i as int))) > u64::MAX,
            !overflow ==> acc == digits_value(digits_of(s@.take(i as int))),
        decreases len - i,
    {
        let c = s.get_char(i);
        proof {
            assert(s@.take(i as int).push(s@[i as int]) =~= s@.take(i as int + 1));
            lemma_digits_push(s@.take(i as int), s@[i as int]);
        }
        if check_digit(c) {
            let d: u64 = ((c as u32) - ('0' as u32)) as u64;
            any = true;
            if !overflow {
                match acc.checked_mul(10) {
                    Some(m) => match m.checked_add(d) {
                        Some(v) => acc = v,
                        None => overflow = true,
                    },
                    None => overflow = true,
                }
            }
        }
        i += 1;
    }
    proof {
        assert(s@.take(len as int) =~= s@);
    }
    if any && !overflow {
        Some(acc)
    } else {
        None
    }
}

} // verus!
