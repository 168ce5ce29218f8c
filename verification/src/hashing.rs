//! What a target's hash is taken of, and the hash itself.
use crate::nearest::slice_texts;
use crate::text::texts;
use vstd::prelude::*;
use vstd::utf8::encode_utf8;

verus! {

/// What the 64-bit XXH3 hash of some bytes is, with the default seed and secret.
pub uninterp spec fn xxh3_digest(bytes: Seq<u8>) -> u64;

/// `xxhash_rust::xxh3::Xxh3Default`: the digest after the given bytes were fed to it.
#[verifier::external_body]
fn xxh3(bytes: &Vec<u8>) -> (r: u64)
    ensures
        r == xxh3_digest(bytes@),
{
    let mut hasher = xxhash_rust::xxh3::Xxh3Default::new();
    hasher.update(bytes);
    hasher.digest()
}

/// A text as it is hashed: its UTF-8 bytes and a byte that no UTF-8 text holds.
pub open spec fn text_bytes(s: Seq<char>) -> Seq<u8> {
    encode_utf8(s).push(0xff)
}

/// A number as it is hashed: its lowest `n` bytes, the lowest first.
pub open spec fn number_bytes(x: nat, n: nat) -> Seq<u8>
    decreases n,
{
    if n == 0 {
        Seq::empty()
    } else {
        seq![(x % 256) as u8] + number_bytes(x / 256, (n - 1) as nat)
    }
}

/// A flag as it is hashed.
pub open spec fn flag_bytes(b: bool) -> Seq<u8> {
    if b {
        seq![1u8]
    } else {
        seq![0u8]
    }
}

/// Texts as they are hashed one after the other.
pub open spec fn texts_bytes(list: Seq<Seq<char>>) -> Seq<u8>
    decreases list.len(),
{
    if list.len() == 0 {
        Seq::empty()
    } else {
        text_bytes(list[0]) + texts_bytes(list.drop_first())
    }
}

/// A list of texts as it is hashed: how many there are, then each.
pub open spec fn list_bytes(list: Seq<Seq<char>>) -> Seq<u8> {
    number_bytes(list.len(), 8) + texts_bytes(list)
}

/// Adds a text to what is hashed.
pub fn push_text(out: &mut Vec<u8>, s: &str)
    ensures
        final(out)@ == old(out)@ + text_bytes(s@),
{
    let bytes = s.as_bytes();
    let ghost all = encode_utf8(s@);
    let ghost start = out@;
    let mut i: usize = 0;
    while i < bytes.len()
        invariant
            i <= bytes@.len(),
            bytes@ == all,
            out@ == start + all.take(i as int),
        decreases bytes@.len() - i,
    {
        out.push(bytes[i]);
        i = i + 1;
        assert(out@ =~= start + all.take(i as int));
    }
    out.push(0xff);
    assert(out@ =~= start + text_bytes(s@));
}

/// Adds the lowest `n` bytes of a number to what is hashed.
pub fn push_number(out: &mut Vec<u8>, x: u64, n: usize)
    ensures
        final(out)@ == old(out)@ + number_bytes(x as nat, n as nat),
{
    let ghost start = out@;
    let ghost whole = number_bytes(x as nat, n as nat);
    let mut rest: u64 = x;
    let mut left: usize = n;
    assert(out@ + number_bytes(rest as nat, left as nat) =~= start + whole);
    while left > 0
        invariant
            out@ + number_bytes(rest as nat, left as nat) == start + whole,
        decreases left,
    {
        let ghost before = out@;
        let ghost b = (rest % 256) as u8;
        out.push((rest % 256) as u8);
        proof {
            assert(before + (seq![b] + number_bytes((rest / 256) as nat, (left - 1) as nat))
                =~= out@ + number_bytes((rest / 256) as nat, (left - 1) as nat));
        }
        rest = rest / 256;
        left = left - 1;
    }
    assert(out@ =~= start + whole);
}

/// Adds a flag to what is hashed.
pub fn push_flag(out: &mut Vec<u8>, b: bool)
    ensures
        final(out)@ == old(out)@ + flag_bytes(b),
{
    let ghost start = out@;
    if b {
        out.push(1);
    } else {
        out.push(0);
    }
    assert(out@ =~= start + flag_bytes(b));
}

/// Adds a list of texts to what is hashed.
pub fn push_list(out: &mut Vec<u8>, list: &Vec<String>)
    ensures
        final(out)@ == old(out)@ + list_bytes(texts(list@)),
{
    let ghost start = out@;
    let ghost all = texts(list@);
    push_number(out, list.len() as u64, 8);
    let ghost head = out@;
    let mut i: usize = 0;
    proof {
        assert(all.len() == list@.len());
        assert(all.skip(0) =~= all);
        assert(out@ + texts_bytes(all.skip(0)) =~= start + list_bytes(all));
    }
    while i < list.len()
        invariant
            i <= list.len(),
            all == texts(list@),
            out@ + texts_bytes(all.skip(i as int)) == start + list_bytes(all),
        decreases list.len() - i,
    {
        let ghost before = out@;
        proof {
            assert(all.skip(i as int)[0] == list@[i as int]@);
            assert(all.skip(i as int).drop_first() =~= all.skip(i + 1));
        }
        push_text(out, list[i].as_str());
        assert(before + (text_bytes(all[i as int]) + texts_bytes(all.skip(i + 1))) =~= out@
            + texts_bytes(all.skip(i + 1)));
        i = i + 1;
    }
    assert(out@ + texts_bytes(all.skip(i as int)) =~= out@);
}

/// Adding a text at the end adds its bytes at the end.
proof fn lemma_texts_bytes_push(list: Seq<Seq<char>>, x: Seq<char>)
    ensures
        texts_bytes(list.push(x)) == texts_bytes(list) + text_bytes(x),
    decreases list.len(),
{
    if list.len() == 0 {
        assert(list.push(x).drop_first() =~= Seq::<Seq<char>>::empty());
        assert(texts_bytes(list.push(x).drop_first()) =~= Seq::<u8>::empty());
        assert(texts_bytes(list) =~= Seq::<u8>::empty());
        assert(list.push(x)[0] == x);
        assert(texts_bytes(list.push(x)) =~= texts_bytes(list) + text_bytes(x));
    } else {
        lemma_texts_bytes_push(list.drop_first(), x);
        assert(list.push(x).drop_first() =~= list.drop_first().push(x));
        assert(texts_bytes(list.push(x)) =~= texts_bytes(list) + text_bytes(x));
    }
}

/// Adds texts one after the other to what is hashed.
pub fn push_texts(out: &mut Vec<u8>, list: &[&str])
    ensures
        final(out)@ == old(out)@ + texts_bytes(slice_texts(list@)),
{
    let ghost all = slice_texts(list@);
    let ghost start = out@;
    let mut i: usize = 0;
    assert(out@ =~= start + texts_bytes(all.take(0)));
    while i < list.len()
        invariant
            i <= list@.len(),
            all == slice_texts(list@),
            out@ == start + texts_bytes(all.take(i as int)),
        decreases list@.len() - i,
    {
        let ghost before = out@;
        push_text(out, list[i]);
        proof {
            assert(all[i as int] == list@[i as int]@);
            lemma_texts_bytes_push(all.take(i as int), all[i as int]);
            assert(all.take(i + 1) =~= all.take(i as int).push(all[i as int]));
            assert(out@ =~= start + texts_bytes(all.take(i + 1)));
        }
        i = i + 1;
    }
    assert(all.take(i as int) =~= all);
}

/// The character of a hexadecimal digit.
pub open spec fn hex_digit(d: nat) -> char {
    if d == 0 {
        '0'
    } else if d == 1 {
        '1'
    } else if d == 2 {
        '2'
    } else if d == 3 {
        '3'
    } else if d == 4 {
        '4'
    } else if d == 5 {
        '5'
    } else if d == 6 {
        '6'
    } else if d == 7 {
        '7'
    } else if d == 8 {
        '8'
    } else if d == 9 {
        '9'
    } else if d == 10 {
        'a'
    } else if d == 11 {
        'b'
    } else if d == 12 {
        'c'
    } else if d == 13 {
        'd'
    } else if d == 14 {
        'e'
    } else {
        'f'
    }
}

/// A number in lower-case hexadecimal digits, without leading zeros.
pub open spec fn hex(n: nat) -> Seq<char>
    decreases n,
{
    if n < 16 {
        seq![hex_digit(n)]
    } else {
        hex(n / 16).push(hex_digit(n % 16))
    }
}

fn digit_char(d: u64) -> (r: char)
    requires
        d < 16,
    ensures
        r == hex_digit(d as nat),
{
    if d == 0 {
        '0'
    } else if d == 1 {
        '1'
    } else if d == 2 {
        '2'
    } else if d == 3 {
        '3'
    } else if d == 4 {
        '4'
    } else if d == 5 {
        '5'
    } else if d == 6 {
        '6'
    } else if d == 7 {
        '7'
    } else if d == 8 {
        '8'
    } else if d == 9 {
        '9'
    } else if d == 10 {
        'a'
    } else if d == 11 {
        'b'
    } else if d == 12 {
        'c'
    } else if d == 13 {
        'd'
    } else if d == 14 {
        'e'
    } else {
        'f'
    }
}

/// A number in lower-case hexadecimal digits.
pub fn to_hex(n: u64) -> (r: String)
    ensures
        r@ == hex(n as nat),
    decreases n,
{
    if n < 16 {
        let mut out = String::new();
        out.push(digit_char(n));
        assert(out@ =~= seq![hex_digit(n as nat)]);
        out
    } else {
        let mut out = to_hex(n / 16);
        out.push(digit_char(n % 16));
        out
    }
}

/// The hash of some bytes as a target carries it.
pub open spec fn hash_text(bytes: Seq<u8>) -> Seq<char> {
    hex(xxh3_digest(bytes) as nat)
}

/// The hash of some bytes as a target carries it.
pub fn hash_of(bytes: &Vec<u8>) -> (r: String)
    ensures
        r@ == hash_text(bytes@),
{
    to_hex(xxh3(bytes))
}

/// No byte of a UTF-8 text is the one that ends a text.
pub proof fn lemma_utf8_bytes(s: Seq<char>)
    ensures
        forall|i: int| 0 <= i < encode_utf8(s).len() ==> #[trigger] encode_utf8(s)[i] != 0xff,
    decreases s.len(),
{
    if s.len() > 0 {
        lemma_utf8_bytes(s.drop_first());
        let c = s[0] as u32;
        let head = vstd::utf8::encode_scalar(c);
        lemma_scalar_bytes(c);
        let tail = encode_utf8(s.drop_first());
        assert forall|i: int| 0 <= i < encode_utf8(s).len() implies #[trigger] encode_utf8(s)[i]
            != 0xff by {
            if i < head.len() {
                assert(encode_utf8(s)[i] == head[i]);
            } else {
                assert(encode_utf8(s)[i] == tail[i - head.len()]);
            }
        }
    }
}

proof fn lemma_scalar_bytes(c: u32)
    ensures
        forall|i: int|
            0 <= i < vstd::utf8::encode_scalar(c).len() ==> #[trigger] vstd::utf8::encode_scalar(
                c,
            )[i] != 0xff,
{
    assert((c & 0x7f) as u8 != 0xff) by (bit_vector);
    assert((0xc0u8 | ((c >> 6) & 0x1f) as u8) != 0xff) by (bit_vector);
    assert((0xe0u8 | ((c >> 12) & 0x0f) as u8) != 0xff) by (bit_vector);
    assert((0xf0u8 | ((c >> 18) & 0x07) as u8) != 0xff) by (bit_vector);
    assert((0x80u8 | (c & 0x3f) as u8) != 0xff) by (bit_vector);
    assert((0x80u8 | ((c >> 6) & 0x3f) as u8) != 0xff) by (bit_vector);
    assert((0x80u8 | ((c >> 12) & 0x3f) as u8) != 0xff) by (bit_vector);
}

/// A text at the start of what is hashed, and what follows it, can be told from the bytes.
pub proof fn lemma_text_splits(s: Seq<char>, a: Seq<u8>, t: Seq<char>, b: Seq<u8>)
    requires
        text_bytes(s) + a == text_bytes(t) + b,
    ensures
        s == t,
        a == b,
{
    lemma_utf8_bytes(s);
    lemma_utf8_bytes(t);
    let x = encode_utf8(s);
    let y = encode_utf8(t);
    let w = text_bytes(s) + a;
    let v = text_bytes(t) + b;
    if x.len() < y.len() {
        assert(w[x.len() as int] == 0xff);
        assert(v[x.len() as int] == y[x.len() as int]);
    }
    if y.len() < x.len() {
        assert(v[y.len() as int] == 0xff);
        assert(w[y.len() as int] == x[y.len() as int]);
    }
    assert(x =~= y) by {
        assert forall|i: int| 0 <= i < x.len() implies x[i] == y[i] by {
            assert(w[i] == x[i]);
            assert(v[i] == y[i]);
        }
    }
    vstd::utf8::encode_utf8_decode_utf8(s);
    vstd::utf8::encode_utf8_decode_utf8(t);
    assert(w.skip(x.len() as int + 1) =~= a);
    assert(v.skip(y.len() as int + 1) =~= b);
}

/// A number at the start of what is hashed, and what follows it, can be told from the bytes.
pub proof fn lemma_number_splits(x: nat, a: Seq<u8>, y: nat, b: Seq<u8>, n: nat)
    requires
        number_bytes(x, n) + a == number_bytes(y, n) + b,
        x < vstd::arithmetic::power::pow(256, n),
        y < vstd::arithmetic::power::pow(256, n),
    ensures
        x == y,
        a == b,
    decreases n,
{
    let w = number_bytes(x, n) + a;
    let v = number_bytes(y, n) + b;
    if n == 0 {
        reveal(vstd::arithmetic::power::pow);
        assert(w =~= a);
        assert(v =~= b);
    } else {
        let m = (n - 1) as nat;
        assert(w[0] == (x % 256) as u8);
        assert(v[0] == (y % 256) as u8);
        assert(w.skip(1) =~= number_bytes(x / 256, m) + a);
        assert(v.skip(1) =~= number_bytes(y / 256, m) + b);
        assert(vstd::arithmetic::power::pow(256, n) == 256 * vstd::arithmetic::power::pow(256, m))
            by {
            reveal(vstd::arithmetic::power::pow);
        }
        lemma_number_splits(x / 256, a, y / 256, b, m);
    }
}

/// A flag at the start of what is hashed, and what follows it, can be told from the bytes.
pub proof fn lemma_flag_splits(x: bool, a: Seq<u8>, y: bool, b: Seq<u8>)
    requires
        flag_bytes(x) + a == flag_bytes(y) + b,
    ensures
        x == y,
        a == b,
{
    let w = flag_bytes(x) + a;
    let v = flag_bytes(y) + b;
    assert(w[0] == flag_bytes(x)[0]);
    assert(v[0] == flag_bytes(y)[0]);
    assert(w.skip(1) =~= a);
    assert(v.skip(1) =~= b);
}

/// As many texts at the start of what is hashed, and what follows them, can be told from the
/// bytes.
pub proof fn lemma_texts_split(s: Seq<Seq<char>>, a: Seq<u8>, t: Seq<Seq<char>>, b: Seq<u8>)
    requires
        s.len() == t.len(),
        texts_bytes(s) + a == texts_bytes(t) + b,
    ensures
        s == t,
        a == b,
    decreases s.len(),
{
    if s.len() == 0 {
        assert(texts_bytes(s) + a =~= a);
        assert(texts_bytes(t) + b =~= b);
        assert(s =~= t);
    } else {
        let p = texts_bytes(s.drop_first());
        let q = texts_bytes(t.drop_first());
        assert(texts_bytes(s) + a =~= text_bytes(s[0]) + (p + a));
        assert(texts_bytes(t) + b =~= text_bytes(t[0]) + (q + b));
        lemma_text_splits(s[0], p + a, t[0], q + b);
        lemma_texts_split(s.drop_first(), a, t.drop_first(), b);
        assert(s =~= seq![s[0]] + s.drop_first());
        assert(t =~= seq![t[0]] + t.drop_first());
    }
}

/// A list at the start of what is hashed, and what follows it, can be told from the bytes.
pub proof fn lemma_list_splits(s: Seq<Seq<char>>, a: Seq<u8>, t: Seq<Seq<char>>, b: Seq<u8>)
    requires
        list_bytes(s) + a == list_bytes(t) + b,
        s.len() <= u64::MAX,
        t.len() <= u64::MAX,
    ensures
        s == t,
        a == b,
{
    let p = texts_bytes(s);
    let q = texts_bytes(t);
    assert(list_bytes(s) + a =~= number_bytes(s.len(), 8) + (p + a));
    assert(list_bytes(t) + b =~= number_bytes(t.len(), 8) + (q + b));
    assert(vstd::arithmetic::power::pow(256, 8) == 0x1_0000_0000_0000_0000) by {
        reveal_with_fuel(vstd::arithmetic::power::pow, 9);
    }
    lemma_number_splits(s.len(), p + a, t.len(), q + b, 8);
    lemma_texts_split(s, a, t, b);
}

} // verus!
