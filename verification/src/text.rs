//! Verified text utilities: locating a separator, splitting on one, and
//! decimal numbers read and written exactly as the standard library's
//! integer parser does, including its error messages.

use vstd::prelude::*;
use vstd::string::StrSliceExecFns;
use vstd::string::StringExecFns;

verus! {

/// The character is a decimal digit.
pub open spec fn is_digit(c: char) -> bool {
    48 <= c as int <= 57
}

/// The numeric value of a decimal digit character.
pub open spec fn digit_val(c: char) -> int {
    c as int - 48
}

/// The digit character for a value below ten.
pub open spec fn char_of_digit(d: int) -> char {
    if d == 0 {
        '0'
    } else if d == 1 {
        '1'
    } else if d == 2 {
        '2'
    } else if d == 3 {
        '3'
    } else if d == 4 {
        '4'
    } else if d == 5 {
        '5'
    } else if d == 6 {
        '6'
    } else if d == 7 {
        '7'
    } else if d == 8 {
        '8'
    } else {
        '9'
    }
}

/// Reads a character as a decimal digit.
pub fn digit_of(c: char) -> (r: Option<u8>)
    ensures
        is_digit(c) <==> r is Some,
        r matches Some(d) ==> d as int == digit_val(c),
{
    let x = c as u32;
    if 48 <= x && x <= 57 {
        Some((x - 48) as u8)
    } else {
        None
    }
}

/// Writes a value below ten as its digit character.
pub fn digit_char(d: u8) -> (c: char)
    requires
        d < 10,
    ensures
        c == char_of_digit(d as int),
{
    match d {
        0 => '0',
        1 => '1',
        2 => '2',
        3 => '3',
        4 => '4',
        5 => '5',
        6 => '6',
        7 => '7',
        8 => '8',
        _ => '9',
    }
}

/// The index of the first occurrence of `sep`, or a negative value when the
/// sequence does not hold it.
pub open spec fn find_first(s: Seq<char>, sep: char) -> int
    decreases s.len(),
{
    if s.len() == 0 {
        -1
    } else if s[0] == sep {
        0
    } else if find_first(s.drop_first(), sep) < 0 {
        -1
    } else {
        1 + find_first(s.drop_first(), sep)
    }
}

/// What `find_first` means: a nonnegative result is the position of the
/// first occurrence, a negative one says there is none.
pub proof fn lemma_find_first(s: Seq<char>, sep: char)
    ensures
        -1 <= find_first(s, sep) < s.len(),
        find_first(s, sep) >= 0 ==> s[find_first(s, sep)] == sep,
        forall|k: int| 0 <= k < find_first(s, sep) ==> s[k] != sep,
        find_first(s, sep) < 0 ==> forall|k: int| 0 <= k < s.len() ==> s[k] != sep,
    decreases s.len(),
{
    if s.len() > 0 && s[0] != sep {
        lemma_find_first(s.drop_first(), sep);
        let d = s.drop_first();
        let fd = find_first(d, sep);
        if fd >= 0 {
            assert(s[fd + 1] == d[fd]);
            assert forall|k: int| 0 <= k < fd + 1 implies s[k] != sep by {
                if k > 0 {
                    assert(d[k - 1] != sep);
                }
            }
        } else {
            assert forall|k: int| 0 <= k < s.len() implies s[k] != sep by {
                if k > 0 {
                    assert(d[k - 1] != sep);
                }
            }
        }
    }
}

/// Finds the first occurrence of a character in a string.
pub fn find_char(s: &str, sep: char) -> (r: Option<usize>)
    ensures
        r matches Some(i) ==> i as int == find_first(s@, sep),
        r is None <==> find_first(s@, sep) < 0,
{
    proof {
        lemma_find_first(s@, sep);
    }
    let n = s.unicode_len();
    let mut i: usize = 0;
    while i < n
        invariant
            i <= n,
            n == s@.len(),
            forall|k: int| 0 <= k < i ==> s@[k] != sep,
            -1 <= find_first(s@, sep) < s@.len(),
            find_first(s@, sep) >= 0 ==> s@[find_first(s@, sep)] == sep,
            forall|k: int| 0 <= k < find_first(s@, sep) ==> s@[k] != sep,
            find_first(s@, sep) < 0 ==> forall|k: int| 0 <= k < s@.len() ==> s@[k] != sep,
        decreases n - i,
    {
        let c = s.get_char(i);
        if c == sep {
            return Some(i);
        }
        i += 1;
    }
    None
}

/// The sequence split at every occurrence of `sep`: one part more than there
/// are separators, the separators themselves dropped.
pub open spec fn split_on(s: Seq<char>, sep: char) -> Seq<Seq<char>>
    decreases s.len(),
{
    let i = find_first(s, sep);
    if 0 <= i < s.len() {
        seq![s.take(i)] + split_on(s.skip(i + 1), sep)
    } else {
        seq![s]
    }
}

/// Splits a string at every occurrence of a character.
pub fn split_str(s: &str, sep: char) -> (parts: Vec<String>)
    ensures
        parts@.len() == split_on(s@, sep).len(),
        forall|i: int| 0 <= i < parts@.len() ==> (#[trigger] parts@[i])@ == split_on(s@, sep)[i],
    decreases s@.len(),
{
    proof {
        lemma_find_first(s@, sep);
    }
    match find_char(s, sep) {
        None => {
            let mut parts: Vec<String> = Vec::new();
            parts.push(s.to_owned());
            parts
        },
        Some(i) => {
            let n = s.unicode_len();
            let head = s.substring_char(0, i).to_owned();
            let rest = s.substring_char(i + 1, n);
            proof {
                assert(head@ =~= s@.take(i as int));
                assert(rest@ =~= s@.skip(i as int + 1));
            }
            let mut parts = split_str(rest, sep);
            parts.insert(0, head);
            proof {
                let whole = split_on(s@, sep);
                assert(whole == seq![s@.take(i as int)] + split_on(rest@, sep));
                assert forall|k: int| 0 <= k < parts@.len() implies (#[trigger] parts@[k])@
                    == whole[k] by {
                    if k > 0 {
                        assert(whole[k] == split_on(rest@, sep)[k - 1]);
                    }
                }
            }
            parts
        },
    }
}

/// How a decimal number parse can fail, with the standard library's wording.
#[derive(Debug, Clone, Copy, PartialEq, Eq, Structural)]
pub enum NumError {
    /// Nothing to parse at all.
    EmptyInput,
    /// A character that is no decimal digit (or a lone sign).
    InvalidDigit,
    /// The value does not fit in the target type.
    Overflow,
}

impl NumError {
    /// The message for this failure.
    pub open spec fn spec_message(self) -> Seq<char> {
        match self {
            NumError::EmptyInput => "cannot parse integer from empty string"@,
            NumError::InvalidDigit => "invalid digit found in string"@,
            NumError::Overflow => "number too large to fit in target type"@,
        }
    }

    /// The message for this failure, for user display.
    pub fn message(&self) -> (m: String)
        ensures
            m@ == self.spec_message(),
    {
        match self {
            NumError::EmptyInput => String::from_str("cannot parse integer from empty string"),
            NumError::InvalidDigit => String::from_str("invalid digit found in string"),
            NumError::Overflow => String::from_str("number too large to fit in target type"),
        }
    }
}

/// Reading decimal digits left to right into a 16-bit value, failing at the
/// first non-digit, or at the first digit that pushes the value past the
/// type's bound.
pub open spec fn parse_u16_digits(s: Seq<char>, acc: int) -> Result<u16, NumError>
    decreases s.len(),
{
    if s.len() == 0 {
        Ok(acc as u16)
    } else if !is_digit(s[0]) {
        Err(NumError::InvalidDigit)
    } else if acc * 10 + digit_val(s[0]) > 65535 {
        Err(NumError::Overflow)
    } else {
        parse_u16_digits(s.drop_first(), acc * 10 + digit_val(s[0]))
    }
}

/// A 16-bit unsigned decimal number as the standard library reads one: an
/// optional leading `+`, then at least one digit, the value at most 65535.
pub open spec fn spec_parse_u16(s: Seq<char>) -> Result<u16, NumError> {
    if s.len() == 0 {
        Err(NumError::EmptyInput)
    } else if s[0] == '+' {
        if s.len() == 1 {
            Err(NumError::InvalidDigit)
        } else {
            parse_u16_digits(s.drop_first(), 0)
        }
    } else {
        parse_u16_digits(s, 0)
    }
}

/// Parses a 16-bit unsigned decimal number, exactly as `spec_parse_u16`
/// describes.
pub fn parse_u16(s: &str) -> (r: Result<u16, NumError>)
    ensures
        r == spec_parse_u16(s@),
{
    let n = s.unicode_len();
    if n == 0 {
        return Err(NumError::EmptyInput);
    }
    let first = s.get_char(0);
    let start: usize = if first == '+' {
        1
    } else {
        0
    };
    if start == 1 && n == 1 {
        return Err(NumError::InvalidDigit);
    }
    proof {
        if start == 0 {
            assert(s@.skip(0) =~= s@);
        } else {
            assert(s@.skip(1) =~= s@.drop_first());
        }
    }
    let mut acc: u16 = 0;
    let mut i: usize = start;
    while i < n
        invariant
            start <= i <= n,
            n == s@.len(),
            spec_parse_u16(s@) == parse_u16_digits(s@.skip(i as int), acc as int),
        decreases n - i,
    {
        let c = s.get_char(i);
        proof {
            assert(s@.skip(i as int)[0] == s@[i as int]);
            assert(s@.skip(i as int).drop_first() =~= s@.skip(i as int + 1));
        }
        match digit_of(c) {
            None => {
                return Err(NumError::InvalidDigit);
            },
            Some(d) => {
                let next = acc as u32 * 10 + d as u32;
                if next > 65535 {
                    return Err(NumError::Overflow);
                }
                acc = next as u16;
            },
        }
        i += 1;
    }
    proof {
        assert(s@.skip(n as int) =~= Seq::<char>::empty());
    }
    Ok(acc)
}

/// Every character of the sequence is a decimal digit.
pub open spec fn all_digits(s: Seq<char>) -> bool {
    forall|k: int| 0 <= k < s.len() ==> is_digit(#[trigger] s[k])
}

/// The value of a sequence of decimal digits, most significant first.
pub open spec fn dec_val(s: Seq<char>) -> int
    decreases s.len(),
{
    if s.len() == 0 {
        0
    } else {
        dec_val(s.drop_last()) * 10 + digit_val(s.last())
    }
}

/// Reads a short, bounded run of decimal digits: the result is the run's
/// value exactly when the text is one to `max_len` digits with value at most
/// `bound`, with no sign and nothing else.
pub fn parse_digits_bounded(p: &str, max_len: usize, bound: u16) -> (r: Option<u16>)
    requires
        1 <= max_len <= 4,
    ensures
        r is Some <==> (1 <= p@.len() <= max_len && all_digits(p@) && dec_val(p@) <= bound),
        r matches Some(v) ==> v as int == dec_val(p@),
{
    let n = p.unicode_len();
    if n == 0 || n > max_len {
        return None;
    }
    let mut acc: u32 = 0;
    let mut i: usize = 0;
    while i < n
        invariant
            i <= n,
            n == p@.len(),
            n <= max_len <= 4,
            acc as int == dec_val(p@.take(i as int)),
            forall|k: int| 0 <= k < i ==> is_digit(#[trigger] p@[k]),
            acc < 10000,
        decreases n - i,
    {
        let c = p.get_char(i);
        match digit_of(c) {
            None => {
                return None;
            },
            Some(d) => {
                proof {
                    assert(p@.take(i as int + 1).drop_last() =~= p@.take(i as int));
                    assert(p@.take(i as int + 1).last() == p@[i as int]);
                    assert(all_digits(p@.take(i as int))) by {
                        assert forall|k: int| 0 <= k < i implies is_digit(
                            #[trigger] p@.take(i as int)[k],
                        ) by {
                            assert(is_digit(p@[k]));
                        }
                    }
                    lemma_dec_val_len_bound(p@.take(i as int));
                }
                acc = acc * 10 + d as u32;
            },
        }
        i += 1;
    }
    proof {
        assert(p@.take(n as int) =~= p@);
    }
    if acc <= bound as u32 {
        Some(acc as u16)
    } else {
        None
    }
}

/// A run of at most four digits has value below ten thousand.
pub proof fn lemma_dec_val_bound(s: Seq<char>)
    requires
        all_digits(s),
    ensures
        0 <= dec_val(s),
        s.len() <= 4 ==> dec_val(s) < 10000,
    decreases s.len(),
{
    if s.len() > 0 {
        assert(all_digits(s.drop_last())) by {
            assert forall|k: int| 0 <= k < s.drop_last().len() implies is_digit(
                #[trigger] s.drop_last()[k],
            ) by {
                assert(is_digit(s[k]));
            }
        }
        lemma_dec_val_bound(s.drop_last());
        assert(is_digit(s.last())) by {
            assert(is_digit(s[s.len() - 1]));
        }
        if s.len() <= 4 {
            lemma_dec_val_len_bound(s);
        }
    }
}

/// A digit run's value is below ten to its length.
proof fn lemma_dec_val_len_bound(s: Seq<char>)
    requires
        all_digits(s),
        s.len() <= 4,
    ensures
        dec_val(s) < pow10(s.len() as int),
    decreases s.len(),
{
    if s.len() > 0 {
        assert(all_digits(s.drop_last())) by {
            assert forall|k: int| 0 <= k < s.drop_last().len() implies is_digit(
                #[trigger] s.drop_last()[k],
            ) by {
                assert(is_digit(s[k]));
            }
        }
        lemma_dec_val_len_bound(s.drop_last());
        assert(is_digit(s.last())) by {
            assert(is_digit(s[s.len() - 1]));
        }
    }
}

/// Powers of ten for short digit runs.
pub open spec fn pow10(n: int) -> int {
    if n <= 0 {
        1
    } else if n == 1 {
        10
    } else if n == 2 {
        100
    } else if n == 3 {
        1000
    } else {
        10000
    }
}

/// The decimal digits of a nonnegative number, most significant first.
pub open spec fn dec_digits(n: int) -> Seq<char>
    decreases n,
{
    if n < 10 {
        seq![char_of_digit(n)]
    } else {
        dec_digits(n / 10).push(char_of_digit(n % 10))
    }
}

/// Relies on `String::push`: it appends the one character to the string.
#[verifier::external_body]
pub fn push_char(s: &mut String, c: char)
    ensures
        final(s)@ == old(s)@.push(c),
{
    s.push(c)
}

/// Writes a 16-bit number in decimal.
pub fn u16_to_string(n: u16) -> (s: String)
    ensures
        s@ == dec_digits(n as int),
    decreases n,
{
    if n < 10 {
        let mut s = String::new();
        push_char(&mut s, digit_char(n as u8));
        proof {
            assert(Seq::<char>::empty().push(char_of_digit(n as int)) =~= seq![
                char_of_digit(n as int),
            ]);
        }
        s
    } else {
        let mut s = u16_to_string(n / 10);
        push_char(&mut s, digit_char((n % 10) as u8));
        s
    }
}

} // verus!
