use vstd::prelude::*;
use vstd::utf8::*;
use vstd::std_specs::iter::IteratorSpec;

verus! {

broadcast use vstd::utf8::char_is_scalar, vstd::string::group_string_axioms;

/// The number of bytes of the UTF-8 encoding of `s`.
pub open spec fn byte_len(s: Seq<char>) -> int {
    encode_utf8(s).len() as int
}

/// The byte offset, in the UTF-8 encoding of `s`, of the character at index `i`.
pub open spec fn offset(s: Seq<char>, i: int) -> int {
    encode_utf8(s.take(i)).len() as int
}

/// The number of bytes of the UTF-8 encoding of `c`.
pub open spec fn width(c: char) -> int {
    encode_scalar(c as u32).len() as int
}

/// The number of bytes needed to encode `c` in UTF-8.
pub fn utf8_width(c: char) -> (w: usize)
    ensures
        w == width(c),
        1 <= w <= 4,
{
    let v = c as u32;
    proof {
        assert(is_scalar(v));
    }
    if v <= 0x7f {
        1
    } else if v <= 0x7ff {
        2
    } else if v <= 0xffff {
        3
    } else {
        4
    }
}

/// Encoding distributes over concatenation.
pub proof fn lemma_encode_concat(a: Seq<char>, b: Seq<char>)
    ensures
        encode_utf8(a + b) == encode_utf8(a) + encode_utf8(b),
    decreases a.len(),
{
    if a.len() == 0 {
        assert(a + b =~= b);
        assert(encode_utf8(a) =~= Seq::<u8>::empty());
        assert(encode_utf8(a) + encode_utf8(b) =~= encode_utf8(b));
    } else {
        assert((a + b).drop_first() =~= a.drop_first() + b);
        lemma_encode_concat(a.drop_first(), b);
        assert(encode_utf8(a + b) =~= encode_scalar(a[0] as u32) + encode_utf8(a.drop_first() + b));
    }
}

/// The encoding of a single character is its scalar encoding.
pub proof fn lemma_encode_single(c: char)
    ensures
        encode_utf8(seq![c]) == encode_scalar(c as u32),
{
    assert(seq![c].drop_first() =~= Seq::<char>::empty());
    assert(encode_utf8(Seq::<char>::empty()) =~= Seq::<u8>::empty());
    assert(encode_scalar(c as u32) + Seq::<u8>::empty() =~= encode_scalar(c as u32));
}

/// Moving one character forward moves the byte offset by that character's width.
pub proof fn lemma_offset_step(s: Seq<char>, i: int)
    requires
        0 <= i < s.len(),
    ensures
        offset(s, i + 1) == offset(s, i) + width(s[i]),
{
    assert(s.take(i + 1) =~= s.take(i) + seq![s[i]]);
    lemma_encode_concat(s.take(i), seq![s[i]]);
    lemma_encode_single(s[i]);
}

/// Every offset lies within the encoding.
pub proof fn lemma_offset_in(s: Seq<char>, i: int)
    requires
        0 <= i <= s.len(),
    ensures
        0 <= offset(s, i) <= byte_len(s),
{
    lemma_offset_mono(s, i, s.len() as int);
    lemma_offset_bounds(s);
}

/// Byte offsets grow with character indices.
pub proof fn lemma_offset_mono(s: Seq<char>, i: int, j: int)
    requires
        0 <= i <= j <= s.len(),
    ensures
        offset(s, i) <= offset(s, j),
        i < j ==> offset(s, i) < offset(s, j),
    decreases j - i,
{
    if i < j {
        lemma_offset_mono(s, i, j - 1);
        lemma_offset_step(s, j - 1);
        char_is_scalar(s[j - 1]);
    }
}

/// The offset at index 0 is 0 and the offset past the end is the length of the encoding.
pub proof fn lemma_offset_bounds(s: Seq<char>)
    ensures
        offset(s, 0) == 0,
        offset(s, s.len() as int) == byte_len(s),
{
    assert(s.take(0) =~= Seq::<char>::empty());
    assert(s.take(s.len() as int) =~= s);
}


/// The characters of `source`, in order.
pub fn collect_chars(source: &str) -> (r: Vec<char>)
    ensures
        r@ == source@,
{
    let mut chars: Vec<char> = Vec::new();
    let mut it = source.chars();
    loop
        invariant
            chars.len() <= source@.len(),
            chars@ == source@.take(chars.len() as int),
            it.remaining() == source@.skip(chars.len() as int),
        ensures
            chars@ == source@,
        decreases source@.len() - chars.len(),
    {
        match it.next() {
            Some(c) => {
                chars.push(c);
                assert(chars@ =~= source@.take(chars.len() as int));
                assert(it.remaining() =~= source@.skip(chars.len() as int));
            },
            None => {
                assert(source@.skip(chars.len() as int).len() == 0);
                assert(chars@ =~= source@);
                break;
            },
        }
    }
    chars
}

/// Byte offsets of distinct character indices differ.
pub proof fn lemma_offset_injective(s: Seq<char>, i: int, j: int)
    requires
        0 <= i <= s.len(),
        0 <= j <= s.len(),
        offset(s, i) == offset(s, j),
    ensures
        i == j,
{
    if i < j {
        lemma_offset_mono(s, i, j);
    } else if j < i {
        lemma_offset_mono(s, j, i);
    }
}

/// The character index whose byte offset is `at`, when `at` is such an offset.
pub fn char_index_of(chars: &Vec<char>, at: u32) -> (r: usize)
    requires
        exists|k: int| 0 <= k <= chars@.len() && offset(chars@, k) == at,
    ensures
        r <= chars@.len(),
        offset(chars@, r as int) == at,
{
    let ghost s = chars@;
    let ghost target = choose|k: int| 0 <= k <= s.len() && offset(s, k) == at;
    let mut i: usize = 0;
    let mut off: usize = 0;
    proof {
        lemma_offset_bounds(s);
    }
    while off < at as usize
        invariant
            0 <= i <= target <= s.len(),
            s == chars@,
            s.len() == chars.len(),
            offset(s, target) == at,
            off == offset(s, i as int),
            off <= at,
        decreases target - i,
    {
        proof {
            if i == target {
                assert(false);
            }
            lemma_offset_step(s, i as int);
            lemma_offset_mono(s, i + 1, target);
        }
        off = off + utf8_width(chars[i]);
        i = i + 1;
    }
    proof {
        if i < target {
            lemma_offset_mono(s, i as int, target);
        }
    }
    i
}

} // verus!
