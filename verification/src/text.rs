//! Text as the configuration and the blocklists use it: trimming, case folding, ordering and the
//! pieces of error messages.
use vstd::prelude::*;
use vstd::string::*;
use vstd::utf8::*;

verus! {

/// The characters with the Unicode property `White_Space`.
pub open spec fn white_space(c: char) -> bool {
    ||| '\u{9}' <= c <= '\u{d}'
    ||| c == '\u{20}'
    ||| c == '\u{85}'
    ||| c == '\u{a0}'
    ||| c == '\u{1680}'
    ||| '\u{2000}' <= c <= '\u{200a}'
    ||| c == '\u{2028}'
    ||| c == '\u{2029}'
    ||| c == '\u{202f}'
    ||| c == '\u{205f}'
    ||| c == '\u{3000}'
}

/// The text from its first character that is not white space on.
pub open spec fn trimmed_start(text: Seq<char>) -> Seq<char>
    decreases text.len(),
{
    if text.len() > 0 && white_space(text.first()) {
        trimmed_start(text.drop_first())
    } else {
        text
    }
}

/// The text up to its last character that is not white space.
pub open spec fn trimmed_end(text: Seq<char>) -> Seq<char>
    decreases text.len(),
{
    if text.len() > 0 && white_space(text.last()) {
        trimmed_end(text.drop_last())
    } else {
        text
    }
}

pub open spec fn trimmed(text: Seq<char>) -> Seq<char> {
    trimmed_end(trimmed_start(text))
}

/// `str::trim` takes leading and trailing white space off, by the Unicode property.
pub assume_specification[ str::trim ](text: &str) -> (r: &str)
    ensures
        r@ == trimmed(text@),
;

/// The ASCII letters in lower case, every other character as it is.
pub open spec fn ascii_lower(c: char) -> char {
    if 'A' <= c <= 'Z' {
        (c as u8 + 32) as char
    } else {
        c
    }
}

/// The texts differ at most in the case of ASCII letters.
pub open spec fn same_ignoring_ascii_case(a: Seq<char>, b: Seq<char>) -> bool {
    &&& a.len() == b.len()
    &&& forall|i: int| 0 <= i < a.len() ==> ascii_lower(#[trigger] a[i]) == ascii_lower(b[i])
}

/// `str::eq_ignore_ascii_case` compares two texts after folding ASCII letters to lower case.
pub assume_specification[ str::eq_ignore_ascii_case ](a: &str, b: &str) -> (r: bool)
    ensures
        r == same_ignoring_ascii_case(a@, b@),
;

/// The decimal digit of a number below ten.
pub open spec fn digit(n: nat) -> char {
    (48 + n) as u8 as char
}

/// A number in decimal notation, without leading zeros.
pub open spec fn decimal_digits(n: nat) -> Seq<char>
    decreases n,
{
    if n < 10 {
        seq![digit(n)]
    } else {
        decimal_digits(n / 10).push(digit(n % 10))
    }
}

/// `u64::to_string` writes the number in decimal.
#[verifier::external_body]
pub(crate) fn decimal(n: u64) -> (r: String)
    ensures
        r@ == decimal_digits(n as nat),
{
    n.to_string()
}

/// What `format!("{:?}", text)` writes for a text: the text in quotes, with escapes.
pub uninterp spec fn quoted_text(text: Seq<char>) -> Seq<char>;

/// `format!` with the `{:?}` placeholder quotes and escapes a text.
#[verifier::external_body]
pub(crate) fn quoted(text: &str) -> (r: String)
    ensures
        r@ == quoted_text(text@),
{
    format!("{:?}", text)
}

/// Lexicographic order on byte sequences: the order of strings.
pub open spec fn bytes_before(a: Seq<u8>, b: Seq<u8>) -> bool
    decreases a.len(),
{
    if b.len() == 0 {
        false
    } else if a.len() == 0 {
        true
    } else if a[0] != b[0] {
        a[0] < b[0]
    } else {
        bytes_before(a.drop_first(), b.drop_first())
    }
}

/// The order of strings: by the bytes of their UTF-8 encoding.
pub open spec fn text_before(a: Seq<char>, b: Seq<char>) -> bool {
    bytes_before(encode_utf8(a), encode_utf8(b))
}

proof fn lemma_bytes_irreflexive(a: Seq<u8>)
    ensures
        !bytes_before(a, a),
    decreases a.len(),
{
    if a.len() > 0 {
        lemma_bytes_irreflexive(a.drop_first());
    }
}

proof fn lemma_bytes_transitive(a: Seq<u8>, b: Seq<u8>, c: Seq<u8>)
    requires
        bytes_before(a, b),
        bytes_before(b, c),
    ensures
        bytes_before(a, c),
    decreases a.len(),
{
    if a.len() > 0 && b.len() > 0 && c.len() > 0 && a[0] == b[0] && b[0] == c[0] {
        lemma_bytes_transitive(a.drop_first(), b.drop_first(), c.drop_first());
    }
}

proof fn lemma_bytes_total(a: Seq<u8>, b: Seq<u8>)
    ensures
        bytes_before(a, b) || bytes_before(b, a) || a == b,
    decreases a.len(),
{
    if a.len() > 0 && b.len() > 0 && a[0] == b[0] {
        lemma_bytes_total(a.drop_first(), b.drop_first());
        if a.drop_first() == b.drop_first() {
            assert(a =~= seq![a[0]] + a.drop_first());
            assert(b =~= seq![b[0]] + b.drop_first());
        }
    } else if a.len() == 0 && b.len() == 0 {
        assert(a =~= b);
    }
}

/// No text comes before itself.
pub proof fn lemma_text_irreflexive(a: Seq<char>)
    ensures
        !text_before(a, a),
{
    lemma_bytes_irreflexive(encode_utf8(a));
}

pub proof fn lemma_text_transitive(a: Seq<char>, b: Seq<char>, c: Seq<char>)
    requires
        text_before(a, b),
        text_before(b, c),
    ensures
        text_before(a, c),
{
    lemma_bytes_transitive(encode_utf8(a), encode_utf8(b), encode_utf8(c));
}

/// Of two different texts one comes before the other.
pub proof fn lemma_text_total(a: Seq<char>, b: Seq<char>)
    ensures
        text_before(a, b) || text_before(b, a) || a == b,
{
    lemma_bytes_total(encode_utf8(a), encode_utf8(b));
    if encode_utf8(a) == encode_utf8(b) {
        encode_utf8_decode_utf8(a);
        encode_utf8_decode_utf8(b);
    }
}

/// Whether one text comes before another.
pub fn is_before(a: &str, b: &str) -> (r: bool)
    ensures
        r == text_before(a@, b@),
{
    let x = a.as_bytes();
    let y = b.as_bytes();
    let mut i: usize = 0;
    proof {
        assert(x@.skip(0) =~= x@);
        assert(y@.skip(0) =~= y@);
    }
    while i < x.len() && i < y.len()
        invariant
            i <= x@.len(),
            i <= y@.len(),
            x@ == encode_utf8(a@),
            y@ == encode_utf8(b@),
            bytes_before(x@, y@) == bytes_before(x@.skip(i as int), y@.skip(i as int)),
        decreases x@.len() - i,
    {
        if x[i] != y[i] {
            return x[i] < y[i];
        }
        proof {
            assert(x@.skip(i as int).drop_first() =~= x@.skip(i + 1));
            assert(y@.skip(i as int).drop_first() =~= y@.skip(i + 1));
        }
        i = i + 1;
    }
    i < y.len()
}

/// The texts are in strictly ascending order: sorted, and none occurs twice.
pub open spec fn ascending(texts: Seq<String>) -> bool {
    forall|i: int, j: int|
        0 <= i < j < texts.len() ==> text_before((#[trigger] texts[i])@, (#[trigger] texts[j])@)
}

/// Some text of the sequence reads like this.
pub open spec fn has_text(texts: Seq<String>, text: Seq<char>) -> bool {
    exists|i: int| 0 <= i < texts.len() && (#[trigger] texts[i])@ == text
}

/// Two ascending sequences with the same members read the same.
pub proof fn lemma_ascending_unique(a: Seq<String>, b: Seq<String>)
    requires
        ascending(a),
        ascending(b),
        forall|t: Seq<char>| has_text(a, t) <==> has_text(b, t),
    ensures
        a.len() == b.len(),
        forall|i: int| 0 <= i < a.len() ==> (#[trigger] a[i])@ == b[i]@,
    decreases a.len(),
{
    if a.len() > 0 {
        assert(has_text(a, a.last()@)) by {
            assert(a[a.len() - 1]@ == a.last()@);
        }
    }
    if b.len() > 0 {
        assert(has_text(b, b.last()@)) by {
            assert(b[b.len() - 1]@ == b.last()@);
        }
    }
    if a.len() > 0 && b.len() > 0 {
        let (x, y) = (a.last()@, b.last()@);
        let i = choose|i: int| 0 <= i < b.len() && (#[trigger] b[i])@ == x;
        let j = choose|j: int| 0 <= j < a.len() && (#[trigger] a[j])@ == y;
        if i < b.len() - 1 && j < a.len() - 1 {
            assert(text_before(b[i]@, b[b.len() - 1]@));
            assert(text_before(a[j]@, a[a.len() - 1]@));
            lemma_text_transitive(x, y, x);
            lemma_text_irreflexive(x);
        }
        if i == b.len() - 1 || j == a.len() - 1 {
            assert(x == y);
        }
        let (p, q) = (a.drop_last(), b.drop_last());
        assert forall|t: Seq<char>| has_text(p, t) <==> has_text(q, t) by {
            if has_text(p, t) {
                let k = choose|k: int| 0 <= k < p.len() && (#[trigger] p[k])@ == t;
                assert(text_before(a[k]@, a[a.len() - 1]@));
                lemma_text_irreflexive(x);
                assert(has_text(a, t));
                let m = choose|m: int| 0 <= m < b.len() && (#[trigger] b[m])@ == t;
                assert(q[m]@ == t);
            }
            if has_text(q, t) {
                let k = choose|k: int| 0 <= k < q.len() && (#[trigger] q[k])@ == t;
                assert(text_before(b[k]@, b[b.len() - 1]@));
                lemma_text_irreflexive(y);
                assert(has_text(b, t));
                let m = choose|m: int| 0 <= m < a.len() && (#[trigger] a[m])@ == t;
                assert(p[m]@ == t);
            }
        }
        lemma_ascending_unique(p, q);
        assert forall|i: int| 0 <= i < a.len() implies (#[trigger] a[i])@ == b[i]@ by {
            if i < a.len() - 1 {
                assert(a[i] == p[i]);
                assert(b[i] == q[i]);
            }
        }
    }
}

/// Adds a text to an ascending sequence, at its place, unless it is there already.
pub fn insert_ascending(texts: &mut Vec<String>, text: &String)
    requires
        ascending(old(texts)@),
    ensures
        ascending(final(texts)@),
        forall|t: Seq<char>| #[trigger]
            has_text(final(texts)@, t) <==> has_text(old(texts)@, t) || t == text@,
{
    let mut i: usize = 0;
    while i < texts.len() && is_before(texts[i].as_str(), text.as_str())
        invariant
            i <= texts@.len(),
            texts@ == old(texts)@,
            forall|k: int| 0 <= k < i ==> text_before((#[trigger] texts@[k])@, text@),
        decreases texts@.len() - i,
    {
        i = i + 1;
    }
    if i < texts.len() && texts[i] == *text {
        assert(has_text(texts@, text@)) by {
            assert(texts@[i as int]@ == text@);
        }
        return ;
    }
    let ghost before = texts@;
    texts.insert(i, text.clone());
    proof {
        let after = texts@;
        assert(after =~= before.insert(i as int, *text));
        if i < before.len() {
            lemma_text_total(before[i as int]@, text@);
        }
        assert forall|a: int, b: int| 0 <= a < b < after.len() implies text_before(
            (#[trigger] after[a])@,
            (#[trigger] after[b])@,
        ) by {
            if b == i {
                assert(after[a] == before[a]);
            } else if a == i {
                assert(after[b] == before[b - 1]);
                if b - 1 > i {
                    assert(text_before(before[i as int]@, before[b - 1]@));
                    lemma_text_transitive(text@, before[i as int]@, before[b - 1]@);
                }
            } else {
                let x = if a < i { a } else { a - 1 };
                let y = if b < i { b } else { b - 1 };
                assert(after[a] == before[x]);
                assert(after[b] == before[y]);
            }
        }
        assert forall|t: Seq<char>| #[trigger] has_text(after, t) <==> has_text(before, t) || t
            == text@ by {
            if has_text(after, t) {
                let k = choose|k: int| 0 <= k < after.len() && (#[trigger] after[k])@ == t;
                if k != i {
                    let x = if k < i { k } else { k - 1 };
                    assert(before[x]@ == t);
                }
            }
            if has_text(before, t) {
                let k = choose|k: int| 0 <= k < before.len() && (#[trigger] before[k])@ == t;
                let x = if k < i { k } else { k + 1 };
                assert(after[x]@ == t);
            }
            if t == text@ {
                assert(after[i as int]@ == t);
            }
        }
    }
}

/// Whether a text occurs in a sequence.
pub fn contains_text(texts: &Vec<String>, text: &String) -> (r: bool)
    ensures
        r == has_text(texts@, text@),
{
    let mut i: usize = 0;
    while i < texts.len()
        invariant
            i <= texts@.len(),
            forall|k: int| 0 <= k < i ==> (#[trigger] texts@[k])@ != text@,
        decreases texts@.len() - i,
    {
        if texts[i] == *text {
            assert(texts@[i as int]@ == text@);
            return true;
        }
        i = i + 1;
    }
    false
}

/// The text holds a NUL byte, so C cannot have it as a string.
pub open spec fn holds_nul(text: Seq<char>) -> bool {
    encode_utf8(text).contains(0u8)
}

pub fn has_nul(text: &str) -> (r: bool)
    ensures
        r == holds_nul(text@),
{
    let bytes = text.as_bytes();
    let mut i: usize = 0;
    while i < bytes.len()
        invariant
            i <= bytes@.len(),
            bytes@ == encode_utf8(text@),
            forall|k: int| 0 <= k < i ==> bytes@[k] != 0,
        decreases bytes@.len() - i,
    {
        if bytes[i] == 0 {
            assert(encode_utf8(text@)[i as int] == 0u8);
            return true;
        }
        i = i + 1;
    }
    false
}

/// A byte with one of these bits set is not zero.
proof fn lemma_marked_byte(mark: u8, bits: u8)
    requires
        mark == 0x80 || mark == 0xc0 || mark == 0xe0 || mark == 0xf0,
    ensures
        mark | bits != 0,
{
    assert(mark | bits != 0) by (bit_vector)
        requires
            mark == 0x80 || mark == 0xc0 || mark == 0xe0 || mark == 0xf0,
    ;
}

proof fn lemma_scalar_nul(c: char)
    ensures
        encode_scalar(c as u32).contains(0u8) <==> c == '\0',
{
    let scalar = c as u32;
    let bytes = encode_scalar(scalar);
    if has_width_1_encoding(scalar) {
        assert((scalar & 0x7f) as u8 == 0 <==> scalar == 0) by (bit_vector)
            requires
                scalar <= 0x7f,
        ;
        if scalar == 0 {
            assert(bytes[0] == 0);
        }
    } else {
        lemma_marked_byte(0xc0, ((scalar >> 6) & 0x1f) as u8);
        lemma_marked_byte(0xe0, ((scalar >> 12) & 0x0f) as u8);
        lemma_marked_byte(0xf0, ((scalar >> 18) & 0x7) as u8);
        lemma_marked_byte(0x80, (scalar & 0x3f) as u8);
        lemma_marked_byte(0x80, ((scalar >> 6) & 0x3f) as u8);
        lemma_marked_byte(0x80, ((scalar >> 12) & 0x3f) as u8);
    }
}

/// A text holds a NUL byte exactly where one of its characters is the NUL character.
pub proof fn law_nul_is_a_character(text: Seq<char>)
    ensures
        holds_nul(text) <==> text.contains('\0'),
    decreases text.len(),
{
    let bytes = encode_utf8(text);
    if text.len() > 0 {
        let rest = text.drop_first();
        let (head, tail) = (encode_scalar(text[0] as u32), encode_utf8(rest));
        law_nul_is_a_character(rest);
        lemma_scalar_nul(text[0]);
        if bytes.contains(0u8) {
            let i = choose|i: int| 0 <= i < bytes.len() && bytes[i] == 0;
            if i < head.len() {
                assert(head[i] == 0);
                assert(text[0] == '\0');
            } else {
                assert(tail[i - head.len()] == 0);
                let k = choose|k: int| 0 <= k < rest.len() && rest[k] == '\0';
                assert(text[k + 1] == '\0');
            }
        }
        if text.contains('\0') {
            let k = choose|k: int| 0 <= k < text.len() && text[k] == '\0';
            if k == 0 {
                let i = choose|i: int| 0 <= i < head.len() && head[i] == 0;
                assert(bytes[i] == 0);
            } else {
                assert(rest[k - 1] == '\0');
                let i = choose|i: int| 0 <= i < tail.len() && tail[i] == 0;
                assert(bytes[head.len() + i] == 0);
            }
        }
    }
}

/// The order of texts is that of their bytes: the first byte in which two texts differ decides, and a
/// text comes before every longer one that begins with it.
pub proof fn law_the_first_different_byte_decides(a: Seq<u8>, b: Seq<u8>, k: int)
    requires
        0 <= k <= a.len(),
        k <= b.len(),
        a.take(k) == b.take(k),
    ensures
        k < a.len() && k < b.len() && a[k] != b[k] ==> (bytes_before(a, b) <==> a[k] < b[k]),
        k == a.len() ==> (bytes_before(a, b) <==> k < b.len()),
        k == b.len() ==> !bytes_before(a, b),
    decreases k,
{
    if k > 0 {
        assert(a[0] == a.take(k)[0] && b[0] == b.take(k)[0]);
        let (x, y) = (a.drop_first(), b.drop_first());
        assert(x.take(k - 1) =~= a.take(k).drop_first());
        assert(y.take(k - 1) =~= b.take(k).drop_first());
        law_the_first_different_byte_decides(x, y, k - 1);
    }
}

/// In an ascending list every text comes once, and before all that are greater.
pub proof fn law_ascending_texts_come_once(texts: Seq<String>, i: int, j: int)
    requires
        ascending(texts),
        0 <= i < j < texts.len(),
    ensures
        texts[i]@ != texts[j]@,
        bytes_before(encode_utf8(texts[i]@), encode_utf8(texts[j]@)),
{
    lemma_text_irreflexive(texts[i]@);
}

} // verus!
