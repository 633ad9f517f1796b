//! Keys and other text: byte order, prefixes, numbers and hashes spelled out.

use vstd::prelude::*;
use vstd::string::*;

verus! {

/// The UTF-8 bytes of a text, by which keys are ordered.
pub open spec fn utf8(text: Seq<char>) -> Seq<u8> {
    vstd::utf8::encode_utf8(text)
}

/// `a` comes before `b` in byte order.
pub open spec fn bytes_before(a: Seq<u8>, b: Seq<u8>) -> bool
    decreases a.len(),
{
    if b.len() == 0 {
        false
    } else if a.len() == 0 {
        true
    } else if a[0] != b[0] {
        a[0] < b[0]
    } else {
        bytes_before(a.skip(1), b.skip(1))
    }
}

/// The text `a` comes before the text `b`.
pub open spec fn text_before(a: Seq<char>, b: Seq<char>) -> bool {
    bytes_before(utf8(a), utf8(b))
}

pub proof fn lemma_before_irreflexive(a: Seq<u8>)
    ensures
        !bytes_before(a, a),
    decreases a.len(),
{
    if a.len() > 0 {
        lemma_before_irreflexive(a.skip(1));
    }
}

pub proof fn lemma_before_transitive(a: Seq<u8>, b: Seq<u8>, c: Seq<u8>)
    requires
        bytes_before(a, b),
        bytes_before(b, c),
    ensures
        bytes_before(a, c),
    decreases a.len(),
{
    if a.len() > 0 && a[0] == b[0] && b[0] == c[0] {
        lemma_before_transitive(a.skip(1), b.skip(1), c.skip(1));
    }
}

pub proof fn lemma_before_total(a: Seq<u8>, b: Seq<u8>)
    ensures
        bytes_before(a, b) || bytes_before(b, a) || a == b,
    decreases a.len(),
{
    if a.len() == 0 && b.len() == 0 {
        assert(a =~= b);
    } else if a.len() > 0 && b.len() > 0 && a[0] == b[0] {
        lemma_before_total(a.skip(1), b.skip(1));
        if a.skip(1) == b.skip(1) {
            assert(a =~= b) by {
                assert forall|i: int| 0 <= i < a.len() implies a[i] == b[i] by {
                    if i > 0 {
                        assert(a.skip(1)[i - 1] == b.skip(1)[i - 1]);
                    }
                }
                assert(a.skip(1).len() == b.skip(1).len());
            }
        }
    }
}

/// Texts with the same bytes are the same text.
pub proof fn lemma_utf8_injective(a: Seq<char>, b: Seq<char>)
    requires
        utf8(a) == utf8(b),
    ensures
        a == b,
{
    vstd::utf8::encode_utf8_decode_utf8(a);
    vstd::utf8::encode_utf8_decode_utf8(b);
}

/// Whether `a` comes before `b`, byte by byte.
pub fn bytes_less(a: &[u8], b: &[u8]) -> (less: bool)
    ensures
        less == bytes_before(a@, b@),
{
    let mut i: usize = 0;
    assert(a@.skip(0) =~= a@);
    assert(b@.skip(0) =~= b@);
    while i < a.len() && i < b.len()
        invariant
            i <= a.len(),
            i <= b.len(),
            bytes_before(a@, b@) == bytes_before(a@.skip(i as int), b@.skip(i as int)),
        decreases a.len() - i,
    {
        assert(a@.skip(i as int).skip(1) =~= a@.skip(i + 1));
        assert(b@.skip(i as int).skip(1) =~= b@.skip(i + 1));
        if a[i] != b[i] {
            return a[i] < b[i];
        }
        i = i + 1;
    }
    i < b.len()
}

/// Byte order of two texts.
pub fn text_less(a: &str, b: &str) -> (less: bool)
    ensures
        less == text_before(a@, b@),
{
    bytes_less(a.as_bytes(), b.as_bytes())
}

/// The two texts are the same.
pub fn text_eq(a: &str, b: &str) -> (same: bool)
    ensures
        same == (a@ == b@),
{
    let same: bool = bytes_eq(a.as_bytes(), b.as_bytes());
    proof {
        if same {
            lemma_utf8_injective(a@, b@);
        }
    }
    same
}

/// Whether the bytes are the same.
pub fn bytes_eq(a: &[u8], b: &[u8]) -> (same: bool)
    ensures
        same == (a@ == b@),
{
    if a.len() != b.len() {
        return false;
    }
    let mut i: usize = 0;
    while i < a.len()
        invariant
            i <= a.len(),
            a.len() == b.len(),
            forall|k: int| 0 <= k < i ==> a@[k] == b@[k],
        decreases a.len() - i,
    {
        if a[i] != b[i] {
            return false;
        }
        i = i + 1;
    }
    assert(a@ =~= b@);
    true
}

/// `text` begins with the bytes of `prefix`.
pub open spec fn has_prefix(text: Seq<char>, prefix: Seq<char>) -> bool {
    utf8(prefix).is_prefix_of(utf8(text))
}

/// Whether the text begins with the prefix.
pub fn starts_with(text: &str, prefix: &str) -> (found: bool)
    ensures
        found == has_prefix(text@, prefix@),
{
    let bytes = text.as_bytes();
    let head = prefix.as_bytes();
    if head.len() > bytes.len() {
        return false;
    }
    let mut i: usize = 0;
    while i < head.len()
        invariant
            i <= head.len() <= bytes.len(),
            bytes@ == utf8(text@),
            head@ == utf8(prefix@),
            forall|k: int| 0 <= k < i ==> head@[k] == bytes@[k],
        decreases head.len() - i,
    {
        if bytes[i] != head[i] {
            assert(bytes@.subrange(0, head@.len() as int)[i as int] == bytes@[i as int]);
            return false;
        }
        i = i + 1;
    }
    assert(head@ =~= bytes@.subrange(0, head@.len() as int));
    true
}

/// The text is not empty and its last character is a slash.
pub fn ends_with_slash(text: &str) -> (found: bool)
    ensures
        found == (text@.len() > 0 && text@.last() == '/'),
{
    let n: usize = text.unicode_len();
    n > 0 && text.get_char(n - 1) == '/'
}

/// Whether a text is empty.
pub fn is_blank(text: &str) -> (blank: bool)
    ensures
        blank == (text@.len() == 0),
{
    text.unicode_len() == 0
}

pub open spec fn hex_char(nibble: u8) -> char {
    if nibble < 10 {
        (('0' as u8) + nibble) as char
    } else {
        (('a' as u8) + nibble - 10) as char
    }
}

/// Two lowercase hex digits per byte.
pub open spec fn hex_text(bytes: Seq<u8>) -> Seq<char>
    decreases bytes.len(),
{
    if bytes.len() == 0 {
        Seq::empty()
    } else {
        hex_text(bytes.drop_last()).push(hex_char(bytes.last() / 16)).push(
            hex_char(bytes.last() % 16),
        )
    }
}

fn hex_digit(nibble: u8) -> (digit: &'static str)
    requires
        nibble < 16,
    ensures
        digit@ == seq![hex_char(nibble)],
{
    let digit: &'static str = if nibble == 0 {
        proof {
            reveal_strlit("0");
        }
        "0"
    } else if nibble == 1 {
        proof {
            reveal_strlit("1");
        }
        "1"
    } else if nibble == 2 {
        proof {
            reveal_strlit("2");
        }
        "2"
    } else if nibble == 3 {
        proof {
            reveal_strlit("3");
        }
        "3"
    } else if nibble == 4 {
        proof {
            reveal_strlit("4");
        }
        "4"
    } else if nibble == 5 {
        proof {
            reveal_strlit("5");
        }
        "5"
    } else if nibble == 6 {
        proof {
            reveal_strlit("6");
        }
        "6"
    } else if nibble == 7 {
        proof {
            reveal_strlit("7");
        }
        "7"
    } else if nibble == 8 {
        proof {
            reveal_strlit("8");
        }
        "8"
    } else if nibble == 9 {
        proof {
            reveal_strlit("9");
        }
        "9"
    } else if nibble == 10 {
        proof {
            reveal_strlit("a");
        }
        "a"
    } else if nibble == 11 {
        proof {
            reveal_strlit("b");
        }
        "b"
    } else if nibble == 12 {
        proof {
            reveal_strlit("c");
        }
        "c"
    } else if nibble == 13 {
        proof {
            reveal_strlit("d");
        }
        "d"
    } else if nibble == 14 {
        proof {
            reveal_strlit("e");
        }
        "e"
    } else {
        proof {
            reveal_strlit("f");
        }
        "f"
    };
    assert(digit@ =~= seq![hex_char(nibble)]);
    digit
}

/// Lowercase hex of `bytes`.
pub fn hex(bytes: &[u8]) -> (text: String)
    ensures
        text@ == hex_text(bytes@),
{
    let mut text: String = String::new();
    let mut i: usize = 0;
    assert(bytes@.take(0) =~= Seq::<u8>::empty());
    while i < bytes.len()
        invariant
            i <= bytes.len(),
            text@ == hex_text(bytes@.take(i as int)),
        decreases bytes.len() - i,
    {
        let byte: u8 = bytes[i];
        let ghost before = text@;
        text.append(hex_digit(byte / 16));
        text.append(hex_digit(byte % 16));
        proof {
            assert(bytes@.take(i + 1).drop_last() =~= bytes@.take(i as int));
            assert(text@ =~= before.push(hex_char(byte / 16)).push(hex_char(byte % 16)));
        }
        i = i + 1;
    }
    assert(bytes@.take(i as int) =~= bytes@);
    text
}

/// Bytes as lowercase hex.
pub fn hex_encode(bytes: &[u8]) -> (text: String)
    ensures
        text@ == hex_text(bytes@),
{
    hex(bytes)
}

/// The text is a SHA-256 hash as `hex` writes it: 64 lowercase hex digits.
pub open spec fn sha256_text(text: Seq<char>) -> bool {
    let bytes = utf8(text);
    bytes.len() == 64 && forall|i: int|
        0 <= i < 64 ==> ('0' as u8) <= #[trigger] bytes[i] <= ('9' as u8) || ('a' as u8) <= bytes[i]
            <= ('f' as u8)
}

proof fn lemma_hex_chars(bytes: Seq<u8>)
    ensures
        hex_text(bytes).len() == 2 * bytes.len(),
        forall|i: int|
            0 <= i < hex_text(bytes).len() ==> '0' <= #[trigger] hex_text(bytes)[i] <= '9' || 'a'
                <= hex_text(bytes)[i] <= 'f',
    decreases bytes.len(),
{
    if bytes.len() > 0 {
        lemma_hex_chars(bytes.drop_last());
    }
}

/// Thirty-two bytes in hex have the form of a SHA-256 hash.
pub proof fn hex_has_hash_form(bytes: Seq<u8>)
    requires
        bytes.len() == 32,
    ensures
        sha256_text(hex_text(bytes)),
{
    let text = hex_text(bytes);
    lemma_hex_chars(bytes);
    assert(vstd::utf8::is_ascii_chars(text));
    vstd::utf8::is_ascii_chars_encode_utf8(text);
    assert forall|i: int| 0 <= i < 64 implies ('0' as u8) <= #[trigger] utf8(text)[i] <= ('9' as u8)
        || ('a' as u8) <= utf8(text)[i] <= ('f' as u8) by {
        assert('0' <= text[i] <= '9' || 'a' <= text[i] <= 'f');
        assert(utf8(text)[i] == text[i] as u8);
    }
}

/// Whether a text has the form of a SHA-256 digest in lowercase hex.
pub fn is_sha256(value: &str) -> (valid: bool)
    ensures
        valid == sha256_text(value@),
{
    let bytes = value.as_bytes();
    if bytes.len() != 64 {
        return false;
    }
    let mut i: usize = 0;
    while i < bytes.len()
        invariant
            i <= bytes.len(),
            bytes.len() == 64,
            bytes@ == utf8(value@),
            forall|k: int|
                0 <= k < i ==> ('0' as u8) <= #[trigger] bytes@[k] <= ('9' as u8) || ('a' as u8)
                    <= bytes@[k] <= ('f' as u8),
        decreases bytes.len() - i,
    {
        let b: u8 = bytes[i];
        if !((b >= 48 && b <= 57) || (b >= 97 && b <= 102)) {
            return false;
        }
        i = i + 1;
    }
    true
}

/// Decimal digits of a number.
pub open spec fn decimal_text(n: nat) -> Seq<char>
    decreases n,
{
    if n < 10 {
        seq![hex_char(n as u8)]
    } else {
        decimal_text(n / 10).push(hex_char((n % 10) as u8))
    }
}

/// `n` in decimal.
pub fn decimal(n: u64) -> (text: String)
    ensures
        text@ == decimal_text(n as nat),
    decreases n,
{
    if n < 10 {
        String::from_str(hex_digit(n as u8))
    } else {
        let mut text = decimal(n / 10);
        let ghost before = text@;
        text.append(hex_digit((n % 10) as u8));
        assert(text@ =~= before.push(hex_char((n % 10) as u8)));
        text
    }
}

/// Two texts one after the other.
pub fn joined(a: &str, b: &str) -> (text: String)
    ensures
        text@ == a@ + b@,
{
    let mut text = String::from_str(a);
    text.append(b);
    text
}

/// The first `k` bytes of both are the same, and there one ends or has the lesser byte.
pub open spec fn differs_at(a: Seq<u8>, b: Seq<u8>, k: int) -> bool {
    &&& 0 <= k <= a.len() && k < b.len()
    &&& forall|j: int| 0 <= j < k ==> #[trigger] a[j] == b[j]
    &&& k == a.len() || a[k] < b[k]
}

/// Bytes are ordered as words of a dictionary: one comes before another where it has the lesser byte at
/// the first place at which they differ, or is a shorter beginning of it.
pub proof fn bytes_go_by_first_difference(a: Seq<u8>, b: Seq<u8>)
    ensures
        bytes_before(a, b) <==> exists|k: int| differs_at(a, b, k),
    decreases a.len(),
{
    if b.len() > 0 && a.len() == 0 {
        assert(differs_at(a, b, 0));
    } else if b.len() > 0 && a[0] == b[0] {
        let (p, q) = (a.skip(1), b.skip(1));
        bytes_go_by_first_difference(p, q);
        if bytes_before(p, q) {
            let k = choose|k: int| differs_at(p, q, k);
            assert forall|j: int| 0 <= j < k + 1 implies #[trigger] a[j] == b[j] by {
                if j > 0 {
                    assert(p[j - 1] == q[j - 1]);
                }
            }
            assert(differs_at(a, b, k + 1));
        }
        if exists|k: int| differs_at(a, b, k) {
            let k = choose|k: int| differs_at(a, b, k);
            assert(k > 0);
            assert forall|j: int| 0 <= j < k - 1 implies #[trigger] p[j] == q[j] by {
                assert(a[j + 1] == b[j + 1]);
            }
            assert(differs_at(p, q, k - 1));
        }
    } else if b.len() > 0 && a[0] < b[0] {
        assert(differs_at(a, b, 0));
    } else if b.len() > 0 {
        if exists|k: int| differs_at(a, b, k) {
            let k = choose|k: int| differs_at(a, b, k);
            assert(a[0] == b[0] || k == 0);
        }
    }
}

/// The number that decimal digits spell.
pub open spec fn spelled(text: Seq<char>) -> int
    decreases text.len(),
{
    if text.len() == 0 {
        0
    } else {
        10 * spelled(text.drop_last()) + (text.last() as int - 48)
    }
}

/// A number in decimal is made of digits, and they spell the number.
pub proof fn decimals_spell_their_number(n: nat)
    ensures
        spelled(decimal_text(n)) == n,
        decimal_text(n).len() > 0,
        forall|k: int|
            0 <= k < decimal_text(n).len() ==> 48 <= (#[trigger] decimal_text(n)[k]) as int <= 57,
    decreases n,
{
    let text = decimal_text(n);
    if n < 10 {
        assert(text =~= seq![hex_char(n as u8)]);
        assert(text.drop_last() =~= Seq::<char>::empty());
        assert(spelled(text.drop_last()) == 0);
    } else {
        decimals_spell_their_number(n / 10);
        assert(text.drop_last() =~= decimal_text(n / 10));
    }
}

/// Bytes and their hex digits determine each other: two digits a byte, the higher half first.
pub proof fn hex_digits_tell_bytes_apart(a: Seq<u8>, b: Seq<u8>)
    ensures
        hex_text(a).len() == 2 * a.len(),
        hex_text(a) == hex_text(b) <==> a == b,
    decreases a.len() + b.len(),
{
    if a.len() > 0 {
        hex_digits_tell_bytes_apart(a.drop_last(), b);
    }
    if b.len() > 0 {
        hex_digits_tell_bytes_apart(b.drop_last(), Seq::empty());
    }
    assert(hex_text(b).len() == 2 * b.len());
    if hex_text(a) == hex_text(b) && a.len() > 0 {
        hex_digits_tell_bytes_apart(a.drop_last(), b.drop_last());
        let (x, y) = (hex_text(a), hex_text(b));
        let n = x.len() as int;
        assert(x[n - 1] == hex_char(a.last() % 16) && y[n - 1] == hex_char(b.last() % 16));
        assert(x[n - 2] == hex_char(a.last() / 16) && y[n - 2] == hex_char(b.last() / 16));
        assert(x.take(n - 2) =~= hex_text(a.drop_last()));
        assert(y.take(n - 2) =~= hex_text(b.drop_last()));
        assert(a.last() % 16 == b.last() % 16);
        assert(a.last() / 16 == b.last() / 16);
        assert(a =~= a.drop_last().push(a.last()));
        assert(b =~= b.drop_last().push(b.last()));
    } else if hex_text(a) == hex_text(b) {
        assert(a =~= b);
    }
}

} // verus!
