use vstd::prelude::*;
use vstd::string::StrSliceExecFns;
use vstd::utf8::encode_utf8;

verus! {

/// The program text that a parse tree addresses: the owned string together
/// with its UTF-8 bytes. Every node span is a byte range into `bytes`.
pub struct SourceText {
    pub text: String,
    pub bytes: Vec<u8>,
}

impl SourceText {
    /// The bytes are exactly the UTF-8 encoding of the text.
    pub open spec fn wf(&self) -> bool {
        self.bytes@ == encode_utf8(self.text@)
    }

    pub fn new(s: &str) -> (r: SourceText)
        ensures
            r.wf(),
            r.text@ == s@,
    {
        SourceText { text: s.to_owned(), bytes: s.as_bytes_vec() }
    }

    /// Wraps an owned string as a source text.
    pub fn from_string(s: String) -> (r: SourceText)
        ensures
            r.wf(),
            r.text@ == s@,
    {
        let b = s.as_str().as_bytes_vec();
        SourceText { text: s, bytes: b }
    }

    pub fn len(&self) -> (n: usize)
        ensures
            n == self.bytes@.len(),
    {
        self.bytes.len()
    }
}

/// True exactly when `pos` lies on a character boundary of the text.
pub(crate) fn boundary_at(src: &SourceText, pos: usize) -> (r: bool)
    requires
        src.wf(),
        pos <= src.bytes@.len(),
    ensures
        r == vstd::utf8::is_char_boundary(src.bytes@, pos as int),
{
    proof {
        broadcast use vstd::utf8::encode_utf8_valid_utf8;

        assert(vstd::utf8::valid_utf8(src.bytes@));
    }
    if pos == 0 || pos == src.bytes.len() {
        proof {
            vstd::utf8::is_char_boundary_start_end_of_seq(src.bytes@);
        }
        true
    } else {
        let b = src.bytes[pos];
        proof {
            vstd::utf8::is_char_boundary_iff_not_is_continuation_byte(src.bytes@, pos as int);
        }
        !(0x80 <= b && b <= 0xbf)
    }
}

/// True exactly when the byte range `[a0, a1)` of `a` equals `[b0, b1)` of `b`.
pub(crate) fn bytes_eq_range(a: &Vec<u8>, a0: usize, a1: usize, b: &Vec<u8>, b0: usize, b1: usize) -> (r:
    bool)
    requires
        a0 <= a1 <= a@.len(),
        b0 <= b1 <= b@.len(),
    ensures
        r == (a@.subrange(a0 as int, a1 as int) == b@.subrange(b0 as int, b1 as int)),
{
    if a1 - a0 != b1 - b0 {
        proof {
            assert(a@.subrange(a0 as int, a1 as int).len() != b@.subrange(b0 as int, b1 as int).len());
        }
        return false;
    }
    let len = a1 - a0;
    let mut k: usize = 0;
    while k < len
        invariant
            a0 <= a1 <= a@.len(),
            b0 <= b1 <= b@.len(),
            len == a1 - a0 == b1 - b0,
            k <= len,
            forall|m: int| 0 <= m < k ==> #[trigger] a@[a0 + m] == b@[b0 + m],
        decreases len - k,
    {
        if a[a0 + k] != b[b0 + k] {
            proof {
                assert(a@.subrange(a0 as int, a1 as int)[k as int] != b@.subrange(
                    b0 as int,
                    b1 as int,
                )[k as int]);
            }
            return false;
        }
        k += 1;
    }
    proof {
        assert forall|m: int| 0 <= m < len implies a@.subrange(a0 as int, a1 as int)[m]
            == b@.subrange(b0 as int, b1 as int)[m] by {
            assert(a@[a0 + m] == b@[b0 + m]);
        }
        assert(a@.subrange(a0 as int, a1 as int) =~= b@.subrange(b0 as int, b1 as int));
    }
    true
}

/// Appends the byte range `[a, b)` of `v` to `out`.
pub(crate) fn append_range(out: &mut Vec<u8>, v: &Vec<u8>, a: usize, b: usize)
    requires
        a <= b <= v@.len(),
    ensures
        final(out)@ == old(out)@ + v@.subrange(a as int, b as int),
{
    let mut k: usize = a;
    while k < b
        invariant
            a <= k <= b <= v@.len(),
            out@.len() == old(out)@.len() + k - a,
            forall|m: int| 0 <= m < old(out)@.len() ==> out@[m] == old(out)@[m],
            forall|m: int|
                old(out)@.len() <= m < out@.len() ==> out@[m] == v@[a + (m - old(out)@.len())],
        decreases b - k,
    {
        out.push(v[k]);
        k += 1;
    }
    proof {
        assert(out@ =~= old(out)@ + v@.subrange(a as int, b as int));
    }
}

/// A fresh copy of the byte range `[a, b)` of `v`.
pub(crate) fn copy_range(v: &Vec<u8>, a: usize, b: usize) -> (r: Vec<u8>)
    requires
        a <= b <= v@.len(),
    ensures
        r@ == v@.subrange(a as int, b as int),
{
    let mut out: Vec<u8> = Vec::new();
    let mut k: usize = a;
    while k < b
        invariant
            a <= k <= b <= v@.len(),
            out@.len() == k - a,
            forall|m: int| 0 <= m < out@.len() ==> out@[m] == v@[a + m],
        decreases b - k,
    {
        out.push(v[k]);
        k += 1;
    }
    proof {
        assert(out@ =~= v@.subrange(a as int, b as int));
    }
    out
}

} // verus!
