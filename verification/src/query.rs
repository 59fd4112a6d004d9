//! Reading the page number out of a request's query.

use vstd::prelude::*;
use vstd::string::*;

verus! {

/// The characters of a text, in order.
pub fn chars_of(text: &str) -> (chars: Vec<char>)
    ensures
        chars@ == text@,
{
    let len = text.unicode_len();
    let mut chars: Vec<char> = Vec::new();
    let mut i: usize = 0;
    while i < len
        invariant
            i <= len,
            len == text@.len(),
            chars@ == text@.take(i as int),
        decreases len - i,
    {
        chars.push(text.get_char(i));
        assert(text@.take(i + 1) =~= text@.take(i as int).push(text@[i as int]));
        i += 1;
    }
    assert(text@.take(len as int) =~= text@);
    chars
}

/// `pattern` stands in `text` at `at`.
pub open spec fn occurs_at(text: Seq<char>, pattern: Seq<char>, at: int) -> bool {
    &&& 0 <= at
    &&& at + pattern.len() <= text.len()
    &&& text.subrange(at, at + pattern.len()) == pattern
}

/// `at` is the last place where `pattern` stands in `text`.
pub open spec fn last_occurrence(text: Seq<char>, pattern: Seq<char>, at: int) -> bool {
    &&& occurs_at(text, pattern, at)
    &&& forall|later: int| at < later ==> !occurs_at(text, pattern, later)
}

/// What follows the last occurrence of `pattern` in `text`; the whole text
/// where `pattern` does not occur.
pub open spec fn after_last(text: Seq<char>, pattern: Seq<char>) -> Seq<char> {
    if exists|at: int| last_occurrence(text, pattern, at) {
        text.skip((choose|at: int| last_occurrence(text, pattern, at)) + pattern.len())
    } else {
        text
    }
}

/// The value of a decimal digit.
pub open spec fn digit_value(c: char) -> Option<int> {
    if '0' <= c && c <= '9' {
        Some(c as int - '0' as int)
    } else {
        None
    }
}

/// The number that a text of decimal digits spells; nothing for a text
/// without characters or with a character that is no digit.
pub open spec fn digits_value(text: Seq<char>) -> Option<int>
    decreases text.len(),
{
    if text.len() == 0 {
        None
    } else if text.len() == 1 {
        digit_value(text[0])
    } else {
        match (digits_value(text.drop_last()), digit_value(text.last())) {
            (Some(value), Some(digit)) => Some(10 * value + digit),
            _ => None,
        }
    }
}

/// The number that a text spells: decimal digits, with `+` or `-` before
/// them or without a sign.
pub open spec fn number_value(text: Seq<char>) -> Option<int> {
    if text.len() > 0 && text[0] == '-' {
        match digits_value(text.skip(1)) {
            Some(value) => Some(-value),
            None => None,
        }
    } else if text.len() > 0 && text[0] == '+' {
        digits_value(text.skip(1))
    } else {
        digits_value(text)
    }
}

/// The page that a query asks for: the number behind the last `page=`, and
/// page one where that is no number or none that sixteen bits hold.
pub open spec fn page_asked(query: Seq<char>) -> int {
    match number_value(after_last(query, "page="@)) {
        Some(value) => if i16::MIN <= value <= i16::MAX {
            value
        } else {
            1
        },
        None => 1,
    }
}

/// Digits spell no number below zero.
pub proof fn lemma_digits_not_negative(text: Seq<char>)
    ensures
        digits_value(text) matches Some(value) ==> value >= 0,
    decreases text.len(),
{
    if text.len() > 1 {
        lemma_digits_not_negative(text.drop_last());
    }
}

/// The digits of a text spell at least what its first digits spell.
proof fn lemma_digits_grow(text: Seq<char>, n: int)
    requires
        1 <= n <= text.len(),
        digits_value(text) is Some,
    ensures
        digits_value(text.take(n)) is Some,
        0 <= digits_value(text.take(n))->0 <= digits_value(text)->0,
    decreases text.len(),
{
    if text.len() == 1 || n == text.len() {
        assert(text.take(n) =~= text);
        if text.len() > 1 {
            lemma_digits_grow(text.drop_last(), text.len() - 1);
            assert(text.drop_last().take(text.len() - 1) =~= text.drop_last());
        }
    } else {
        lemma_digits_grow(text.drop_last(), n);
        assert(text.drop_last().take(n) =~= text.take(n));
    }
}

/// Reads the number that decimal digits spell, as far as it stays below
/// `limit`.
fn read_digits(chars: &Vec<char>, from: usize, limit: i32) -> (value: Option<i32>)
    requires
        from <= chars@.len(),
        0 < limit <= 0x1_0000,
    ensures
        value matches Some(read) ==> 0 <= read <= limit,
        digits_value(chars@.skip(from as int)) matches Some(spelled) ==> spelled >= 0,
        match digits_value(chars@.skip(from as int)) {
            Some(spelled) => if spelled <= limit {
                value == Some(spelled as i32)
            } else {
                value is None
            },
            None => value is None,
        },
{
    let ghost text = chars@.skip(from as int);
    proof {
        lemma_digits_not_negative(text);
    }
    if from == chars.len() {
        return None;
    }
    let mut value: i32 = 0;
    let mut i: usize = from;
    while i < chars.len()
        invariant
            from <= i <= chars.len(),
            text == chars@.skip(from as int),
            0 < limit <= 0x1_0000,
            0 <= value <= limit,
            i > from ==> digits_value(text.take(i - from)) == Some(value as int),
            i == from ==> value == 0,
        decreases chars.len() - i,
    {
        let c = chars[i];
        proof {
            assert(text.take(i - from + 1).drop_last() =~= text.take(i - from));
            assert(text.take(i - from + 1).last() == c);
            if digits_value(text) is Some {
                lemma_digits_grow(text, i - from + 1);
            }
        }
        if c < '0' || c > '9' {
            proof {
                if digits_value(text) is Some {
                    assert(digits_value(text.take(i - from + 1)) is Some);
                }
            }
            return None;
        }
        let digit = (c as u32 - '0' as u32) as i32;
        value = 10 * value + digit;
        if value > limit {
            return None;
        }
        i += 1;
    }
    assert(text.take(i - from) =~= text);
    Some(value)
}

/// Reads the number that a text spells, if sixteen bits hold it.
fn read_number(chars: &Vec<char>, from: usize) -> (value: Option<i16>)
    requires
        from <= chars@.len(),
    ensures
        match number_value(chars@.skip(from as int)) {
            Some(spelled) => if i16::MIN <= spelled <= i16::MAX {
                value == Some(spelled as i16)
            } else {
                value is None
            },
            None => value is None,
        },
{
    let ghost text = chars@.skip(from as int);
    if from < chars.len() && chars[from] == '-' {
        assert(text[0] == '-');
        assert(text.skip(1) =~= chars@.skip(from + 1));
        match read_digits(chars, from + 1, 0x8000) {
            Some(value) => Some((-value) as i16),
            None => None,
        }
    } else if from < chars.len() && chars[from] == '+' {
        assert(text[0] == '+');
        assert(text.skip(1) =~= chars@.skip(from + 1));
        match read_digits(chars, from + 1, 0x7FFF) {
            Some(value) => Some(value as i16),
            None => None,
        }
    } else {
        assert(from < chars.len() ==> text[0] == chars[from as int]);
        match read_digits(chars, from, 0x7FFF) {
            Some(value) => Some(value as i16),
            None => None,
        }
    }
}

/// Tells whether `pattern` stands in `text` at `at`.
fn stands_at(text: &Vec<char>, pattern: &Vec<char>, at: usize) -> (stands: bool)
    ensures
        stands == occurs_at(text@, pattern@, at as int),
{
    if pattern.len() > text.len() || at > text.len() - pattern.len() {
        return false;
    }
    let mut i: usize = 0;
    while i < pattern.len()
        invariant
            i <= pattern.len(),
            at + pattern.len() <= text.len(),
            forall|j: int| 0 <= j < i ==> text@[at + j] == pattern@[j],
        decreases pattern.len() - i,
    {
        if text[at + i] != pattern[i] {
            assert(text@.subrange(at as int, at + pattern.len())[i as int] != pattern@[i as int]);
            return false;
        }
        i += 1;
    }
    assert(text@.subrange(at as int, at + pattern.len()) =~= pattern@);
    true
}

/// The page that a query asks for.
pub fn page_of_query(query: &str) -> (page: i16)
    ensures
        page == page_asked(query@),
{
    let text = chars_of(query);
    let pattern = chars_of("page=");
    let mut from: usize = 0;
    let mut at: usize = text.len();
    let mut found = false;
    proof {
        reveal_strlit("page=");
    }
    while at > 0
        invariant_except_break
            !found,
            forall|later: int| at <= later ==> !occurs_at(text@, pattern@, later),
        invariant
            at <= text.len(),
            pattern@.len() > 0,
        ensures
            found ==> last_occurrence(text@, pattern@, at as int),
            !found ==> forall|any: int| !occurs_at(text@, pattern@, any),
        decreases at,
    {
        at -= 1;
        if stands_at(&text, &pattern, at) {
            found = true;
            break ;
        }
    }
    if found {
        from = at + pattern.len();
        proof {
            let chosen = choose|chosen: int| last_occurrence(text@, pattern@, chosen);
            assert(chosen == at);
        }
    } else {
        proof {
            assert(text@.skip(0) =~= text@);
        }
    }
    match read_number(&text, from) {
        Some(page) => page,
        None => 1,
    }
}

} // verus!
