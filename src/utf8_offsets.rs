use vstd::prelude::*;
use vstd::utf8::*;

verus! {

broadcast use vstd::utf8::char_is_scalar;

/// Byte length of the UTF-8 encoding of the first `k` characters of `t`.
pub open spec fn byte_offset(t: Seq<char>, k: int) -> int {
    encode_utf8(t.subrange(0, k)).len() as int
}

/// Whether byte position `b` of the encoding of `t` starts a character (or
/// is its end).
pub open spec fn is_char_boundary(t: Seq<char>, b: int) -> bool {
    exists|k: int| 0 <= k <= t.len() && #[trigger] byte_offset(t, k) == b
}

/// The character index at byte position `b`, where `b` is a boundary.
pub open spec fn char_index(t: Seq<char>, b: int) -> int {
    choose|k: int| 0 <= k <= t.len() && #[trigger] byte_offset(t, k) == b
}

pub proof fn lemma_encode_concat(a: Seq<char>, b: Seq<char>)
    ensures
        encode_utf8(a + b) == encode_utf8(a) + encode_utf8(b),
    decreases a.len(),
{
    if a.len() == 0 {
        assert(a + b =~= b);
        assert(encode_utf8(a) =~= Seq::<u8>::empty());
        assert(encode_utf8(a) + encode_utf8(b) =~= encode_utf8(b));
    } else {
        assert((a + b).drop_first() =~= a.drop_first() + b);
        lemma_encode_concat(a.drop_first(), b);
        assert((a + b)[0] == a[0]);
        assert(encode_utf8(a + b) =~= encode_utf8(a) + encode_utf8(b));
    }
}

pub proof fn lemma_single_width(c: char)
    ensures
        encode_utf8(seq![c]).len() == encode_scalar(c as u32).len(),
        1 <= encode_utf8(seq![c]).len() <= 4,
{
    assert(seq![c].drop_first() =~= Seq::<char>::empty());
    assert(encode_utf8(Seq::<char>::empty()) =~= Seq::<u8>::empty());
    assert(encode_utf8(seq![c]) =~= encode_scalar(c as u32) + encode_utf8(seq![c].drop_first()));
}

/// Each character adds its own width to the offset.
pub proof fn lemma_offset_step(t: Seq<char>, k: int)
    requires
        0 <= k < t.len(),
    ensures
        byte_offset(t, k + 1) == byte_offset(t, k) + encode_utf8(seq![t[k]]).len(),
        byte_offset(t, k) < byte_offset(t, k + 1),
{
    assert(t.subrange(0, k + 1) =~= t.subrange(0, k) + seq![t[k]]);
    lemma_encode_concat(t.subrange(0, k), seq![t[k]]);
    lemma_single_width(t[k]);
}

/// Offsets grow strictly with the character index.
pub proof fn lemma_offset_strict(t: Seq<char>, i: int, j: int)
    requires
        0 <= i < j <= t.len(),
    ensures
        byte_offset(t, i) < byte_offset(t, j),
    decreases j - i,
{
    lemma_offset_step(t, j - 1);
    if i < j - 1 {
        lemma_offset_strict(t, i, j - 1);
    }
}

/// A boundary has exactly one character index.
pub proof fn lemma_char_index_unique(t: Seq<char>, k: int)
    requires
        0 <= k <= t.len(),
    ensures
        is_char_boundary(t, byte_offset(t, k)),
        char_index(t, byte_offset(t, k)) == k,
{
    let b = byte_offset(t, k);
    assert(0 <= k <= t.len() && byte_offset(t, k) == b);
    let c = char_index(t, b);
    if c < k {
        lemma_offset_strict(t, c, k);
    } else if k < c {
        lemma_offset_strict(t, k, c);
    }
}

/// Width in bytes of the UTF-8 encoding of `c`.
pub fn char_width(c: char) -> (r: usize)
    ensures
        r == encode_utf8(seq![c]).len(),
        1 <= r <= 4,
{
    proof {
        lemma_single_width(c);
    }
    let u = c as u32;
    if u < 0x80 {
        1
    } else if u < 0x800 {
        2
    } else if u < 0x10000 {
        3
    } else {
        4
    }
}

/// For each character index `k` from 0 to the length of `text`, the byte
/// offset at which that character starts.
pub fn char_offsets(text: &str) -> (r: Vec<usize>)
    ensures
        r@.len() == text@.len() + 1,
        forall|k: int| 0 <= k <= text@.len() ==> #[trigger] r@[k] == byte_offset(text@, k),
{
    let ghost t = text@;
    let total = text.as_bytes_vec().len();
    let n = text.unicode_len();
    proof {
        assert(t.subrange(0, t.len() as int) =~= t);
    }
    let mut offs: Vec<usize> = Vec::new();
    offs.push(0);
    proof {
        assert(t.subrange(0, 0) =~= Seq::<char>::empty());
        assert(encode_utf8(Seq::<char>::empty()) =~= Seq::<u8>::empty());
    }
    let mut off: usize = 0;
    let mut k: usize = 0;
    while k < n
        invariant
            t == text@,
            n == t.len(),
            total == byte_offset(t, n as int),
            k <= n,
            off == byte_offset(t, k as int),
            offs@.len() == k + 1,
            forall|j: int| 0 <= j <= k ==> #[trigger] offs@[j] == byte_offset(t, j),
        decreases n - k,
    {
        let c = text.get_char(k);
        let w = char_width(c);
        proof {
            lemma_offset_step(t, k as int);
            if k + 1 < n {
                lemma_offset_strict(t, k + 1, n as int);
            }
        }
        off = off + w;
        offs.push(off);
        k = k + 1;
    }
    offs
}

/// The index `k` with `offs[k] == b`, if there is one.
pub fn index_of_offset(offs: &Vec<usize>, b: usize) -> (r: Option<usize>)
    ensures
        r matches Some(k) ==> k < offs@.len() && offs@[k as int] == b,
        r is None ==> forall|k: int| 0 <= k < offs@.len() ==> offs@[k] != b,
{
    let mut i: usize = 0;
    while i < offs.len()
        invariant
            i <= offs@.len(),
            forall|k: int| 0 <= k < i ==> offs@[k] != b,
        decreases offs@.len() - i,
    {
        if offs[i] == b {
            return Some(i);
        }
        i = i + 1;
    }
    None
}

} // verus!
