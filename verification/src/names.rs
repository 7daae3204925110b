//! Names in fixed-size fields, ended by a zero byte.

use vstd::prelude::*;
use vstd::string::StringSliceAdditionalSpecFns;
use vstd::utf8::{is_char_boundary_iff_is_leading_byte, valid_utf8, valid_utf8_split};

verus! {

/// The position of the first zero byte, or the length where there is none.
pub open spec fn nul_at(s: Seq<u8>) -> int
    decreases s.len(),
{
    if s.len() == 0 || s[0] == 0 {
        0
    } else {
        1 + nul_at(s.skip(1))
    }
}

/// What stands before the first zero byte.
pub open spec fn cut(s: Seq<u8>) -> Seq<u8> {
    s.take(nul_at(s))
}

/// `s` followed by zero bytes, up to `n` bytes.
pub open spec fn padded(s: Seq<u8>, n: nat) -> Seq<u8> {
    Seq::new(n, |i: int| if i < s.len() { s[i] } else { 0u8 })
}

/// A field that holds a name: a zero byte ends it, and what stands before is UTF-8.
pub open spec fn name_ok(field: Seq<u8>) -> bool {
    &&& nul_at(field) < field.len()
    &&& valid_utf8(cut(field))
}

/// What the position of the first zero byte says.
pub proof fn lemma_nul_at(s: Seq<u8>)
    ensures
        0 <= nul_at(s) <= s.len(),
        forall|i: int| 0 <= i < nul_at(s) ==> s[i] != 0,
        nul_at(s) < s.len() ==> s[nul_at(s)] == 0,
    decreases s.len(),
{
    if s.len() != 0 && s[0] != 0 {
        lemma_nul_at(s.skip(1));
        assert forall|i: int| 0 <= i < nul_at(s) implies s[i] != 0 by {
            if i > 0 {
                assert(s[i] == s.skip(1)[i - 1]);
            }
        }
        if nul_at(s) < s.len() {
            assert(s[nul_at(s)] == s.skip(1)[nul_at(s) - 1]);
        }
    }
}

/// There is one position of the first zero byte.
pub proof fn lemma_nul_at_unique(s: Seq<u8>, k: int)
    requires
        0 <= k <= s.len(),
        forall|i: int| 0 <= i < k ==> s[i] != 0,
        k < s.len() ==> s[k] == 0,
    ensures
        nul_at(s) == k,
{
    lemma_nul_at(s);
    if nul_at(s) < k {
        assert(s[nul_at(s)] != 0);
    }
}

/// A name that fits its field with a zero byte to spare is read back up to its first zero byte.
pub proof fn lemma_padded(name: Seq<u8>, n: nat)
    requires
        name.len() < n,
        valid_utf8(name),
    ensures
        name_ok(padded(name, n)),
        cut(padded(name, n)) == cut(name),
{
    let p = padded(name, n);
    lemma_nul_at(name);
    lemma_nul_at_unique(p, nul_at(name));
    assert(cut(p) =~= cut(name));
    let k = nul_at(name);
    if k < name.len() {
        is_char_boundary_iff_is_leading_byte(name, k);
        assert(vstd::utf8::is_leading_byte_width_1(name[k]));
        valid_utf8_split(name, k);
        assert(name.subrange(0, k) =~= cut(name));
    } else {
        assert(cut(name) =~= name);
    }
}

/// A name without a zero byte is its own cut.
pub proof fn lemma_cut_whole(name: Seq<u8>)
    requires
        forall|i: int| 0 <= i < name.len() ==> name[i] != 0,
    ensures
        cut(name) == name,
{
    lemma_nul_at_unique(name, name.len() as int);
    assert(cut(name) =~= name);
}

/// Calls `core::str::from_utf8`, which gives the bytes as a string slice if and only if they are
/// UTF-8.
#[verifier::external_body]
fn utf8_str(bytes: &[u8]) -> (r: Option<&str>)
    ensures
        r is Some <==> valid_utf8(bytes@),
        r matches Some(s) ==> s.spec_bytes() == bytes@,
{
    core::str::from_utf8(bytes).ok()
}

/// A name in a field of 256 bytes.
#[derive(Copy, Clone)]
pub struct Str256(pub [u8; 256]);

/// A string in a field of 32 bytes.
#[derive(Copy, Clone)]
pub struct Str32(pub [u8; 32]);

impl Str32 {
    /// The field that holds the given string.
    pub fn from(s: &str) -> (r: Str32)
        requires
            s.spec_bytes().len() <= 32,
        ensures
            r.0@ == padded(s.spec_bytes(), 32),
    {
        let bytes = s.as_bytes();
        let mut field: [u8; 32] = [0u8; 32];
        let mut i: usize = 0;
        while i < bytes.len()
            invariant
                i <= bytes@.len() <= 32,
                bytes@ == s.spec_bytes(),
                forall|j: int| 0 <= j < 32 ==> field[j] == if j < i { bytes@[j] } else { 0u8 },
            decreases bytes@.len() - i,
        {
            field[i] = bytes[i];
            i = i + 1;
        }
        assert(field@ =~= padded(s.spec_bytes(), 32));
        Str32(field)
    }
}

impl Str256 {
    /// The field that holds the given name.
    pub fn from(s: &str) -> (r: Str256)
        requires
            s.spec_bytes().len() <= 256,
        ensures
            r.0@ == padded(s.spec_bytes(), 256),
    {
        let bytes = s.as_bytes();
        let mut field: [u8; 256] = [0u8; 256];
        let mut i: usize = 0;
        while i < bytes.len()
            invariant
                i <= bytes@.len() <= 256,
                bytes@ == s.spec_bytes(),
                forall|j: int| 0 <= j < 256 ==> field[j] == if j < i { bytes@[j] } else { 0u8 },
            decreases bytes@.len() - i,
        {
            field[i] = bytes[i];
            i = i + 1;
        }
        assert(field@ =~= padded(s.spec_bytes(), 256));
        Str256(field)
    }

    /// The length of the name.
    fn name_len(&self) -> (n: usize)
        ensures
            n == nul_at(self.0@),
    {
        let mut i: usize = 0;
        while i < 256
            invariant
                i <= 256,
                forall|j: int| 0 <= j < i ==> self.0[j] != 0,
            decreases 256 - i,
        {
            if self.0[i] == 0 {
                proof {
                    lemma_nul_at_unique(self.0@, i as int);
                }
                return i;
            }
            i = i + 1;
        }
        proof {
            lemma_nul_at_unique(self.0@, 256);
        }
        i
    }

    /// Whether the field holds the given name.
    pub fn is(&self, name: &str) -> (r: bool)
        ensures
            r == (cut(self.0@) == name.spec_bytes()),
    {
        let n = self.name_len();
        let bytes = name.as_bytes();
        proof {
            lemma_nul_at(self.0@);
        }
        if n != bytes.len() {
            assert(cut(self.0@).len() == n);
            return false;
        }
        let mut i: usize = 0;
        while i < n
            invariant
                i <= n <= 256,
                n == nul_at(self.0@),
                n == bytes@.len(),
                bytes@ == name.spec_bytes(),
                forall|j: int| 0 <= j < i ==> self.0[j] == bytes@[j],
            decreases n - i,
        {
            if self.0[i] != bytes[i] {
                assert(cut(self.0@)[i as int] != name.spec_bytes()[i as int]);
                return false;
            }
            i = i + 1;
        }
        assert(cut(self.0@) =~= name.spec_bytes());
        true
    }

    /// The name in the field.
    pub fn name(&self) -> (s: String)
        requires
            name_ok(self.0@),
        ensures
            vstd::utf8::encode_utf8(s@) == cut(self.0@),
    {
        let n = self.name_len();
        proof {
            lemma_nul_at(self.0@);
        }
        let mut bytes: Vec<u8> = Vec::new();
        let mut i: usize = 0;
        while i < n
            invariant
                i <= n <= 256,
                bytes@ == self.0@.take(i as int),
            decreases n - i,
        {
            bytes.push(self.0[i]);
            i = i + 1;
            assert(bytes@ =~= self.0@.take(i as int));
        }
        match utf8_str(bytes.as_slice()) {
            Some(s) => s.to_owned(),
            None => String::new(),
        }
    }
}

/// A name without zero bytes that leaves room for one is read back from its field, and the field holds
/// that name and no other.
pub proof fn law_name(s: &str, f: Str256, t: String, other: &str, b: bool, k: int)
    requires
        s.spec_bytes().len() < 256,
        forall|i: int| 0 <= i < s.spec_bytes().len() ==> s.spec_bytes()[i] != 0,
        call_ensures(Str256::from, (s,), f),
        call_ensures(Str256::name, (&f,), t),
        call_ensures(Str256::is, (&f, other), b),
        0 <= k < 256,
    ensures
        vstd::utf8::encode_utf8(t@) == s.spec_bytes(),
        b <==> other.spec_bytes() == s.spec_bytes(),
        k < s.spec_bytes().len() ==> f.0@[k] == s.spec_bytes()[k],
        k >= s.spec_bytes().len() ==> f.0@[k] == 0,
{
    vstd::utf8::encode_utf8_valid_utf8(s@);
    lemma_padded(s.spec_bytes(), 256);
    lemma_cut_whole(s.spec_bytes());
}

/// A name is what stands in its field before the first zero byte, and the field holds no other name.
pub proof fn law_field(f: Str256, t: String, k: int, other: &str, b: bool)
    requires
        name_ok(f.0@),
        call_ensures(Str256::name, (&f,), t),
        call_ensures(Str256::is, (&f, other), b),
    ensures
        b <==> other.spec_bytes() == vstd::utf8::encode_utf8(t@),
        ({
            let n = vstd::utf8::encode_utf8(t@);
            &&& n.len() < 256
            &&& 0 <= k < n.len() ==> n[k] == f.0@[k] && n[k] != 0
            &&& f.0@[n.len() as int] == 0
        }),
{
    lemma_nul_at(f.0@);
}

/// A string stands at the start of its field, and zero bytes behind it.
pub proof fn law_string(s: &str, f: Str32, k: int)
    requires
        call_ensures(Str32::from, (s,), f),
        0 <= k < 32,
    ensures
        k < s.spec_bytes().len() ==> f.0@[k] == s.spec_bytes()[k],
        k >= s.spec_bytes().len() ==> f.0@[k] == 0,
{
}

} // verus!
