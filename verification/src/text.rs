use vstd::prelude::*;
use vstd::string::*;
use vstd::utf8::*;

verus! {

/// Calls `String::from_utf8`, which accepts exactly the byte vectors that are
/// well-formed UTF-8 and yields the text they encode.
#[verifier::external_body]
pub(crate) fn string_from_utf8(bytes: Vec<u8>) -> (text: Option<String>)
    ensures
        text is Some <==> valid_utf8(bytes@),
        text matches Some(s) ==> s@ == decode_utf8(bytes@),
{
    match String::from_utf8(bytes) {
        Ok(s) => Some(s),
        Err(_) => None,
    }
}

/// The values of a list of texts, in order.
pub open spec fn string_views(texts: Seq<String>) -> Seq<Seq<char>> {
    Seq::new(texts.len(), |i: int| texts[i]@)
}

/// The texts stand in ascending order, none twice.
pub open spec fn texts_ascend(texts: Seq<Seq<char>>) -> bool {
    forall|i: int, j: int|
        0 <= i < j < texts.len() ==> text_lt(#[trigger] texts[i], #[trigger] texts[j])
}

/// A text put between those before it and those after it keeps the order.
pub proof fn lemma_texts_ascend_insert(texts: Seq<Seq<char>>, at: int, text: Seq<char>)
    requires
        texts_ascend(texts),
        0 <= at <= texts.len(),
        forall|i: int| 0 <= i < at ==> text_lt(#[trigger] texts[i], text),
        at < texts.len() ==> text_lt(text, texts[at]),
    ensures
        texts_ascend(texts.insert(at, text)),
{
    let longer = texts.insert(at, text);
    texts.insert_ensures(at, text);
    assert forall|i: int, j: int| 0 <= i < j < longer.len() implies text_lt(
        #[trigger] longer[i],
        #[trigger] longer[j],
    ) by {
        if j > at {
            assert(longer[j] == texts[j - 1]);
            if j - 1 > at {
                lemma_text_lt_transitive(text, texts[at], texts[j - 1]);
            }
        }
        if i > at {
            assert(longer[i] == texts[i - 1]);
        }
    }
}

/// The text ends with the zero character and holds no other.
pub open spec fn zero_terminated(text: Seq<char>) -> bool {
    &&& text.len() > 0
    &&& text[text.len() - 1] == '\0'
    &&& forall|i: int| 0 <= i < text.len() - 1 ==> text[i] != '\0'
}

/// Of the bytes that encode a character, only the single byte of the zero
/// character is zero.
proof fn lemma_scalar_bytes(scalar: u32)
    by (bit_vector)
    ensures
        scalar <= 0x7F ==> ((scalar & 0x7F) as u8 == 0 <==> scalar == 0),
        0xC0u8 | ((scalar >> 6) & 0x1F) as u8 != 0,
        0xE0u8 | ((scalar >> 12) & 0x0F) as u8 != 0,
        0xF0u8 | ((scalar >> 18) & 0x7) as u8 != 0,
        0x80u8 | (scalar & 0x3F) as u8 != 0,
        0x80u8 | ((scalar >> 6) & 0x3F) as u8 != 0,
        0x80u8 | ((scalar >> 12) & 0x3F) as u8 != 0,
{
}

/// The UTF-8 bytes of a zero-terminated text end with a zero byte and hold
/// no other.
pub proof fn lemma_zero_terminated_bytes(text: Seq<char>)
    requires
        zero_terminated(text),
    ensures
        encode_utf8(text).len() > 0,
        encode_utf8(text)[encode_utf8(text).len() - 1] == 0,
        forall|i: int| 0 <= i < encode_utf8(text).len() - 1 ==> encode_utf8(text)[i] != 0,
    decreases text.len(),
{
    let first = text[0] as u32;
    let head = encode_scalar(first);
    let rest = text.drop_first();
    lemma_scalar_bytes(first);
    char_is_scalar(text[0]);
    if text.len() == 1 {
        assert(first == 0);
        assert(encode_utf8(rest) =~= Seq::<u8>::empty());
        assert(encode_utf8(text) =~= head);
    } else {
        assert(first != 0) by {
            char_u32_cast(text[0], first);
            char_u32_cast('\0', 0u32);
        }
        assert(zero_terminated(rest)) by {
            assert forall|i: int| 0 <= i < rest.len() - 1 implies rest[i] != '\0' by {
                assert(rest[i] == text[i + 1]);
            }
        }
        lemma_zero_terminated_bytes(rest);
        let tail = encode_utf8(rest);
        assert forall|i: int| 0 <= i < head.len() implies head[i] != 0 by {}
        assert forall|i: int| 0 <= i < encode_utf8(text).len() - 1 implies encode_utf8(text)[i]
            != 0 by {
            if i >= head.len() {
                assert(encode_utf8(text)[i] == tail[i - head.len()]);
            } else {
                assert(encode_utf8(text)[i] == head[i]);
            }
        }
    }
}

/// The order of texts: character by character, a text before every longer
/// text that it begins.
pub open spec fn text_lt(a: Seq<char>, b: Seq<char>) -> bool
    decreases a.len(),
{
    if b.len() == 0 {
        false
    } else if a.len() == 0 {
        true
    } else if a[0] != b[0] {
        (a[0] as u32) < (b[0] as u32)
    } else {
        text_lt(a.drop_first(), b.drop_first())
    }
}

/// No text comes before itself.
pub proof fn lemma_text_lt_irreflexive(a: Seq<char>)
    ensures
        !text_lt(a, a),
    decreases a.len(),
{
    if a.len() > 0 {
        lemma_text_lt_irreflexive(a.drop_first());
    }
}

/// Of two texts that differ, one comes before the other.
pub proof fn lemma_text_lt_total(a: Seq<char>, b: Seq<char>)
    ensures
        a == b || text_lt(a, b) || text_lt(b, a),
        !(text_lt(a, b) && text_lt(b, a)),
    decreases a.len(),
{
    if a.len() == 0 || b.len() == 0 {
        if a.len() == 0 && b.len() == 0 {
            assert(a =~= b);
        }
    } else if a[0] == b[0] {
        lemma_text_lt_total(a.drop_first(), b.drop_first());
        if a.drop_first() == b.drop_first() {
            assert(a =~= seq![a[0]] + a.drop_first());
            assert(b =~= seq![b[0]] + b.drop_first());
        }
    } else {
        vstd::utf8::char_u32_cast(a[0], a[0] as u32);
        vstd::utf8::char_u32_cast(b[0], b[0] as u32);
    }
}

/// The order of texts is transitive.
pub proof fn lemma_text_lt_transitive(a: Seq<char>, b: Seq<char>, c: Seq<char>)
    requires
        text_lt(a, b),
        text_lt(b, c),
    ensures
        text_lt(a, c),
    decreases a.len(),
{
    if a.len() > 0 && a[0] == b[0] && b[0] == c[0] {
        lemma_text_lt_transitive(a.drop_first(), b.drop_first(), c.drop_first());
    }
}

/// Texts that agree on their first `n` characters are ordered as what
/// follows those characters is.
pub proof fn lemma_text_lt_skip(a: Seq<char>, b: Seq<char>, n: int)
    requires
        0 <= n <= a.len(),
        n <= b.len(),
        a.take(n) == b.take(n),
    ensures
        text_lt(a, b) == text_lt(a.skip(n), b.skip(n)),
    decreases n,
{
    if n == 0 {
        assert(a.skip(0) =~= a);
        assert(b.skip(0) =~= b);
    } else {
        assert(a[0] == a.take(n)[0]);
        assert(b[0] == b.take(n)[0]);
        assert(a.drop_first().take(n - 1) =~= a.take(n).drop_first());
        assert(b.drop_first().take(n - 1) =~= b.take(n).drop_first());
        lemma_text_lt_skip(a.drop_first(), b.drop_first(), n - 1);
        assert(a.drop_first().skip(n - 1) =~= a.skip(n));
        assert(b.drop_first().skip(n - 1) =~= b.skip(n));
    }
}

/// How one text stands to another in the order of texts.
#[derive(Debug, Clone, Copy, PartialEq, Eq, Structural)]
pub enum Standing {
    Before,
    Same,
    After,
}

/// Compares two texts in the order of texts.
pub fn text_standing(a: &str, b: &str) -> (standing: Standing)
    ensures
        standing == Standing::Before <==> text_lt(a@, b@),
        standing == Standing::Same <==> a@ == b@,
        standing == Standing::After <==> text_lt(b@, a@),
{
    let a_len = a.unicode_len();
    let b_len = b.unicode_len();
    proof {
        lemma_text_lt_total(a@, b@);
        lemma_text_lt_irreflexive(a@);
    }
    let mut i: usize = 0;
    while i < a_len && i < b_len
        invariant
            i <= a_len,
            i <= b_len,
            a_len == a@.len(),
            b_len == b@.len(),
            a@.take(i as int) == b@.take(i as int),
        decreases a_len - i,
    {
        let x = a.get_char(i);
        let y = b.get_char(i);
        if x != y {
            proof {
                lemma_text_lt_skip(a@, b@, i as int);
                lemma_text_lt_skip(b@, a@, i as int);
                assert(a@.skip(i as int)[0] == x);
                assert(b@.skip(i as int)[0] == y);
            }
            if (x as u32) < (y as u32) {
                return Standing::Before;
            } else {
                return Standing::After;
            }
        }
        proof {
            assert(a@.take(i + 1) =~= a@.take(i as int).push(x));
            assert(b@.take(i + 1) =~= b@.take(i as int).push(y));
        }
        i += 1;
    }
    proof {
        lemma_text_lt_skip(a@, b@, i as int);
        lemma_text_lt_skip(b@, a@, i as int);
        if a_len == b_len {
            assert(a@ =~= a@.take(i as int));
            assert(b@ =~= b@.take(i as int));
        }
    }
    if a_len < b_len {
        Standing::Before
    } else if a_len == b_len {
        Standing::Same
    } else {
        Standing::After
    }
}

} // verus!
