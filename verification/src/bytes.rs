//! Byte-string helpers: equality and ASCII case folding, used for
//! command names and `SET` modifiers, which match case-insensitively.

use vstd::prelude::*;

verus! {

/// ASCII upper-case letters fold to lower case; all else is unchanged.
pub open spec fn lower_byte(b: u8) -> u8 {
    if 65 <= b <= 90 {
        (b + 32) as u8
    } else {
        b
    }
}

/// Bytewise ASCII case folding.
pub open spec fn lower(s: Seq<u8>) -> Seq<u8> {
    s.map_values(|b: u8| lower_byte(b))
}

/// Whether two byte strings hold the same bytes.
pub fn bytes_eq(a: &[u8], b: &[u8]) -> (r: bool)
    ensures
        r == (a@ == b@),
{
    if a.len() != b.len() {
        proof {
            assert(a@ != b@) by {
                if a@ == b@ {
                    assert(a@.len() == b@.len());
                }
            }
        }
        return false;
    }
    let mut i: usize = 0;
    while i < a.len()
        invariant
            i <= a@.len(),
            a@.len() == b@.len(),
            forall|j: int| 0 <= j < i ==> a@[j] == b@[j],
        decreases a@.len() - i,
    {
        if a[i] != b[i] {
            return false;
        }
        i += 1;
    }
    proof {
        assert(a@ =~= b@);
    }
    true
}

/// The bytes of an ASCII text.
pub open spec fn ascii_bytes(s: Seq<char>) -> Seq<u8> {
    Seq::new(s.len(), |i: int| s[i] as u8)
}

/// The bytes of an ASCII string slice.
pub fn str_bytes(s: &str) -> (r: Vec<u8>)
    requires
        s.is_ascii(),
    ensures
        r@ == ascii_bytes(s@),
{
    let b = s.as_bytes();
    let r = vstd::slice::slice_to_vec(b);
    proof {
        vstd::string::is_ascii_spec_bytes(s);
        assert(r@ =~= ascii_bytes(s@));
    }
    r
}

/// The byte sequences a vector of byte vectors stands for.
pub open spec fn views_of(args: Seq<Vec<u8>>) -> Seq<Seq<u8>> {
    args.map_values(|v: Vec<u8>| v@)
}

/// Whether a byte string spells an ASCII text.
pub fn eq_ascii(b: &[u8], s: &str) -> (r: bool)
    requires
        s.is_ascii(),
    ensures
        r == (b@ == ascii_bytes(s@)),
{
    let sb = s.as_bytes();
    proof {
        vstd::string::is_ascii_spec_bytes(s);
        assert(sb@ =~= ascii_bytes(s@));
    }
    bytes_eq(b, sb)
}

/// No `\r` anywhere in `s`: enough for `line_safe`, and unlike that
/// predicate it survives concatenation on either side.
pub open spec fn no_cr(s: Seq<u8>) -> bool {
    forall|i: int| 0 <= i < s.len() ==> (#[trigger] s[i]) != 13
}

/// A byte string without `\r` cannot embed a line terminator.
pub proof fn lemma_no_cr_line_safe(s: Seq<u8>)
    requires
        no_cr(s),
    ensures
        crate::value::line_safe(s),
{
    assert forall|i: int| 0 <= i && i + 1 < s.len() implies !((#[trigger] s[i]) == 13 && s[i + 1]
        == 10) by {
        assert(s[i] != 13);
    }
}

/// Freedom from `\r` survives concatenation.
pub proof fn lemma_no_cr_concat(a: Seq<u8>, b: Seq<u8>)
    requires
        no_cr(a),
        no_cr(b),
    ensures
        no_cr(a + b),
{
    assert forall|i: int| 0 <= i < (a + b).len() implies (#[trigger] (a + b)[i]) != 13 by {
        if i < a.len() {
            assert((a + b)[i] == a[i]);
        } else {
            assert((a + b)[i] == b[i - a.len()]);
        }
    }
}

/// ASCII text that spells no `\r` yields bytes without `\r`.
pub proof fn lemma_ascii_no_cr(s: &str)
    requires
        s.is_ascii(),
        forall|i: int| 0 <= i < s@.len() ==> (#[trigger] s@[i]) != '\r',
    ensures
        no_cr(ascii_bytes(s@)),
{
    assert forall|i: int|
        0 <= i < ascii_bytes(s@).len() implies (#[trigger] ascii_bytes(s@)[i]) != 13 by {
        assert(ascii_bytes(s@)[i] == s@[i] as u8);
        assert('\0' <= s@[i] <= '\u{7f}');
        assert(s@[i] != '\r');
    }
}

/// Line-terminator bytes replaced by spaces, so arbitrary request bytes
/// can ride inside an error line without ending it early.
pub open spec fn line_clean(s: Seq<u8>) -> Seq<u8> {
    s.map_values(
        |b: u8|
            if b == 13 || b == 10 {
                32u8
            } else {
                b
            },
    )
}

/// Cleaning leaves no `\r` behind.
pub proof fn lemma_line_clean_no_cr(s: Seq<u8>)
    ensures
        no_cr(line_clean(s)),
{
    assert forall|i: int|
        0 <= i < line_clean(s).len() implies (#[trigger] line_clean(s)[i]) != 13 by {
        assert(line_clean(s)[i] == (if s[i] == 13 || s[i] == 10 {
            32u8
        } else {
            s[i]
        }));
    }
}

/// Replaces `\r` and `\n` bytes by spaces.
pub fn to_line_clean(s: &[u8]) -> (r: Vec<u8>)
    ensures
        r@ == line_clean(s@),
{
    let mut r: Vec<u8> = Vec::new();
    let mut i: usize = 0;
    while i < s.len()
        invariant
            i <= s@.len(),
            r@ == line_clean(s@.subrange(0, i as int)),
        decreases s@.len() - i,
    {
        let b = s[i];
        if b == 13 || b == 10 {
            r.push(32);
        } else {
            r.push(b);
        }
        proof {
            assert(line_clean(s@.subrange(0, i as int + 1)) =~= line_clean(
                s@.subrange(0, i as int),
            ).push(
                (if s@[i as int] == 13 || s@[i as int] == 10 {
                    32u8
                } else {
                    s@[i as int]
                }),
            ));
        }
        i += 1;
    }
    proof {
        assert(s@.subrange(0, s@.len() as int) =~= s@);
    }
    r
}

/// Folds a byte string to ASCII lower case.
pub fn to_lower(s: &[u8]) -> (r: Vec<u8>)
    ensures
        r@ == lower(s@),
{
    let mut r: Vec<u8> = Vec::new();
    let mut i: usize = 0;
    while i < s.len()
        invariant
            i <= s@.len(),
            r@ == lower(s@.subrange(0, i as int)),
        decreases s@.len() - i,
    {
        let b = s[i];
        if 65 <= b && b <= 90 {
            r.push(b + 32);
        } else {
            r.push(b);
        }
        proof {
            assert(lower(s@.subrange(0, i as int + 1)) =~= lower(s@.subrange(0, i as int)).push(
                lower_byte(s@[i as int]),
            ));
        }
        i += 1;
    }
    proof {
        assert(s@.subrange(0, s@.len() as int) =~= s@);
    }
    r
}

} // verus!
