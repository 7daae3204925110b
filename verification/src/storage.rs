//! Storage of files that an enclave protects: keys, modes and outcomes.

use vstd::prelude::*;
use vstd::string::StringSliceAdditionalSpecFns;
use vstd::utf8::encode_utf8;

verus! {

/// A key of 128 bits.
pub type Key128bit = sgx_types::sgx_key_128bit_t;

/// The tag that authenticates a file.
pub type MacTag = sgx_types::sgx_aes_gcm_128bit_tag_t;

/// How the files of a storage are protected.
#[derive(Debug, Copy, Clone, PartialEq, Eq)]
pub enum EncryptMode {
    IntegrityOnly,
    EncryptWithIntegrity(Key128bit),
    Encrypt(Key128bit),
    EncryptAutoKey,
}

/// Why a key string was refused.
#[derive(Debug, Copy, Clone, PartialEq, Eq, Structural)]
pub enum KeyError {
    /// the string does not have one part per byte of the key
    Format,
    /// a part has no digits
    Empty,
    /// a part holds what is no digit
    InvalidDigit,
    /// a part does not fit into a byte
    Overflow,
}

impl KeyError {
    /// The error in words.
    pub fn message(self) -> (s: &'static str)
        ensures
            s@ == match self {
                KeyError::Format => "The length or format of Key string is invalid"@,
                KeyError::Empty => "cannot parse integer from empty string"@,
                KeyError::InvalidDigit => "invalid digit found in string"@,
                KeyError::Overflow => "number too large to fit in target type"@,
            },
    {
        match self {
            KeyError::Format => "The length or format of Key string is invalid",
            KeyError::Empty => "cannot parse integer from empty string",
            KeyError::InvalidDigit => "invalid digit found in string",
            KeyError::Overflow => "number too large to fit in target type",
        }
    }
}

/// The parts of a string that dashes separate.
pub open spec fn pieces(s: Seq<u8>) -> Seq<Seq<u8>>
    decreases s.len(),
{
    if s.len() == 0 {
        seq![Seq::<u8>::empty()]
    } else {
        let before = pieces(s.drop_last());
        if s.last() == 45 {
            before.push(Seq::<u8>::empty())
        } else {
            before.drop_last().push(before.last().push(s.last()))
        }
    }
}

/// The value of a hexadecimal digit, in either case.
pub open spec fn digit_of(c: u8) -> Option<int> {
    if 48 <= c <= 57 {
        Some(c - 48)
    } else if 65 <= c <= 70 {
        Some(c - 55)
    } else if 97 <= c <= 102 {
        Some(c - 87)
    } else {
        None
    }
}

/// The byte that hexadecimal digits stand for, where `high` has been read before them.
pub open spec fn digits_from(high: int, s: Seq<u8>) -> Result<int, KeyError>
    decreases s.len(),
{
    if s.len() == 0 {
        Ok(high)
    } else {
        match digit_of(s[0]) {
            None => Err(KeyError::InvalidDigit),
            Some(x) => if high * 16 + x > 255 {
                Err(KeyError::Overflow)
            } else {
                digits_from(high * 16 + x, s.skip(1))
            },
        }
    }
}

/// The byte that a part of a key stands for: hexadecimal digits, perhaps after a plus sign.
pub open spec fn byte_of(s: Seq<u8>) -> Result<int, KeyError> {
    if s.len() == 0 {
        Err(KeyError::Empty)
    } else if s[0] == 43 {
        if s.len() == 1 {
            Err(KeyError::InvalidDigit)
        } else {
            digits_from(0, s.skip(1))
        }
    } else {
        digits_from(0, s)
    }
}

/// The result of reading a key string: the first part that is refused decides.
pub open spec fn key_read(s: Seq<u8>, r: Result<Key128bit, KeyError>) -> bool {
    let p = pieces(s);
    match r {
        Ok(key) => {
            &&& p.len() == 16
            &&& forall|i: int|
                0 <= i < 16 ==> byte_of(#[trigger] p[i]) == Ok::<int, KeyError>(key[i] as int)
        },
        Err(e) => if p.len() != 16 {
            e == KeyError::Format
        } else {
            exists|i: int|
                {
                    &&& 0 <= i < 16
                    &&& byte_of(#[trigger] p[i]) == Err::<int, KeyError>(e)
                    &&& forall|j: int| 0 <= j < i ==> byte_of(#[trigger] p[j]) is Ok
                }
        },
    }
}

/// A key string stands for one key, or is refused for one reason.
pub proof fn law_key_read(
    s: Seq<u8>,
    a: Result<Key128bit, KeyError>,
    b: Result<Key128bit, KeyError>,
)
    requires
        key_read(s, a),
        key_read(s, b),
    ensures
        a is Ok <==> b is Ok,
        a is Ok ==> a->Ok_0@ == b->Ok_0@,
        a is Err ==> a->Err_0 == b->Err_0,
{
    let p = pieces(s);
    if p.len() == 16 {
        match (a, b) {
            (Ok(x), Ok(y)) => {
                assert forall|i: int| 0 <= i < 16 implies x@[i] == y@[i] by {
                    assert(byte_of(p[i]) == Ok::<int, KeyError>(x[i] as int));
                    assert(byte_of(p[i]) == Ok::<int, KeyError>(y[i] as int));
                }
                assert(x@ =~= y@);
            },
            (Err(x), Err(y)) => {
                let i = choose|i: int|
                    {
                        &&& 0 <= i < 16
                        &&& byte_of(#[trigger] p[i]) == Err::<int, KeyError>(x)
                        &&& forall|j: int| 0 <= j < i ==> byte_of(#[trigger] p[j]) is Ok
                    };
                let k = choose|i: int|
                    {
                        &&& 0 <= i < 16
                        &&& byte_of(#[trigger] p[i]) == Err::<int, KeyError>(y)
                        &&& forall|j: int| 0 <= j < i ==> byte_of(#[trigger] p[j]) is Ok
                    };
                if i < k {
                    assert(byte_of(p[i]) is Ok);
                } else if k < i {
                    assert(byte_of(p[k]) is Ok);
                }
            },
            (Ok(x), Err(y)) => {
                let k = choose|i: int|
                    {
                        &&& 0 <= i < 16
                        &&& byte_of(#[trigger] p[i]) == Err::<int, KeyError>(y)
                        &&& forall|j: int| 0 <= j < i ==> byte_of(#[trigger] p[j]) is Ok
                    };
                assert(byte_of(p[k]) == Ok::<int, KeyError>(x[k] as int));
            },
            (Err(x), Ok(y)) => {
                let k = choose|i: int|
                    {
                        &&& 0 <= i < 16
                        &&& byte_of(#[trigger] p[i]) == Err::<int, KeyError>(x)
                        &&& forall|j: int| 0 <= j < i ==> byte_of(#[trigger] p[j]) is Ok
                    };
                assert(byte_of(p[k]) == Ok::<int, KeyError>(y[k] as int));
            },
        }
    }
}

/// Cuts a string at its dashes.
fn split(s: &[u8]) -> (parts: Vec<Vec<u8>>)
    ensures
        parts@.len() == pieces(s@).len(),
        forall|i: int| 0 <= i < parts@.len() ==> (#[trigger] parts@[i])@ == pieces(s@)[i],
{
    let mut parts: Vec<Vec<u8>> = Vec::new();
    let mut part: Vec<u8> = Vec::new();
    let mut i: usize = 0;
    assert(s@.take(0) =~= Seq::<u8>::empty());
    while i < s.len()
        invariant
            i <= s@.len(),
            pieces(s@.take(i as int)).len() == parts@.len() + 1,
            part@ == pieces(s@.take(i as int)).last(),
            forall|j: int|
                0 <= j < parts@.len() ==> (#[trigger] parts@[j])@ == pieces(s@.take(i as int))[j],
        decreases s@.len() - i,
    {
        proof {
            assert(s@.take(i + 1).drop_last() =~= s@.take(i as int));
        }
        if s[i] == 45 {
            parts.push(part);
            part = Vec::new();
        } else {
            part.push(s[i]);
        }
        i = i + 1;
    }
    assert(s@.take(i as int) =~= s@);
    parts.push(part);
    parts
}

/// The value of a hexadecimal digit.
fn hex_digit(c: u8) -> (r: Option<u8>)
    ensures
        match digit_of(c) {
            Some(x) => r == Some(x as u8) && 0 <= x < 16,
            None => r is None,
        },
{
    if 48 <= c && c <= 57 {
        Some(c - 48)
    } else if 65 <= c && c <= 70 {
        Some(c - 55)
    } else if 97 <= c && c <= 102 {
        Some(c - 87)
    } else {
        None
    }
}

/// Reads a byte in hexadecimal.
pub fn parse_byte(s: &[u8]) -> (r: Result<u8, KeyError>)
    ensures
        match byte_of(s@) {
            Ok(x) => r == Ok::<u8, KeyError>(x as u8) && 0 <= x <= 255,
            Err(e) => r == Err::<u8, KeyError>(e),
        },
{
    if s.len() == 0 {
        return Err(KeyError::Empty);
    }
    let mut i: usize = 0;
    if s[0] == 43 {
        if s.len() == 1 {
            return Err(KeyError::InvalidDigit);
        }
        i = 1;
    }
    let ghost whole = byte_of(s@);
    let mut high: u8 = 0;
    proof {
        assert(s@.skip(0) =~= s@);
    }
    while i < s.len()
        invariant
            i <= s@.len(),
            whole == digits_from(high as int, s@.skip(i as int)),
            whole == byte_of(s@),
        decreases s@.len() - i,
    {
        proof {
            assert(s@.skip(i as int).skip(1) =~= s@.skip(i + 1));
            assert(s@.skip(i as int)[0] == s@[i as int]);
        }
        let x = match hex_digit(s[i]) {
            Some(x) => x,
            None => {
                return Err(KeyError::InvalidDigit);
            },
        };
        if high > 15 {
            return Err(KeyError::Overflow);
        }
        high = high * 16 + x;
        i = i + 1;
    }
    Ok(high)
}

impl EncryptMode {
    /// The mode that the given parameters ask for. The key is written as bytes in hexadecimal with
    /// dashes between them.
    pub fn from_parameters(protect_integrity: bool, key: &Option<String>) -> (r: Result<
        Self,
        KeyError,
    >)
        ensures
            match (r, *key) {
                (Ok(EncryptMode::IntegrityOnly), None) => protect_integrity,
                (Ok(EncryptMode::EncryptAutoKey), None) => !protect_integrity,
                (Ok(EncryptMode::EncryptWithIntegrity(k)), Some(s)) => {
                    protect_integrity && key_read(encode_utf8(s@), Ok(k))
                },
                (Ok(EncryptMode::Encrypt(k)), Some(s)) => {
                    !protect_integrity && key_read(encode_utf8(s@), Ok(k))
                },
                (Err(e), Some(s)) => key_read(encode_utf8(s@), Err(e)),
                _ => false,
            },
    {
        match key {
            None => if protect_integrity {
                Ok(EncryptMode::IntegrityOnly)
            } else {
                Ok(EncryptMode::EncryptAutoKey)
            },
            Some(key_str) => match Self::parse_key(key_str.as_str()) {
                Ok(key) => if protect_integrity {
                    Ok(EncryptMode::EncryptWithIntegrity(key))
                } else {
                    Ok(EncryptMode::Encrypt(key))
                },
                Err(e) => Err(e),
            },
        }
    }

    /// Reads a key that is written as bytes in hexadecimal with dashes between them.
    pub fn parse_key(key_str: &str) -> (r: Result<Key128bit, KeyError>)
        ensures
            key_read(key_str.spec_bytes(), r),
    {
        let parts = split(key_str.as_bytes());
        let ghost p = pieces(key_str.spec_bytes());
        if parts.len() != 16 {
            return Err(KeyError::Format);
        }
        let mut key: [u8; 16] = [0u8; 16];
        let mut i: usize = 0;
        while i < 16
            invariant
                i <= 16,
                parts@.len() == 16,
                p.len() == 16,
                p == pieces(key_str.spec_bytes()),
                forall|j: int| 0 <= j < 16 ==> (#[trigger] parts@[j])@ == p[j],
                forall|j: int|
                    0 <= j < i ==> byte_of(#[trigger] p[j]) == Ok::<int, KeyError>(key[j] as int),
            decreases 16 - i,
        {
            match parse_byte(parts[i].as_slice()) {
                Ok(x) => {
                    key[i] = x;
                },
                Err(e) => {
                    assert(byte_of(p[i as int]) == Err::<int, KeyError>(e));
                    return Err(e);
                },
            }
            assert(byte_of(p[i as int]) == Ok::<int, KeyError>(key[i as int] as int));
            i = i + 1;
        }
        Ok(key)
    }
}

/// The directory that protected files lie in, and how they are protected.
pub struct SgxStorage {
    path: String,
    mode: EncryptMode,
}

/// How a protected file is opened.
#[derive(Debug, Copy, Clone, PartialEq, Eq, Structural)]
pub enum OpenAction {
    /// a new file with integrity protection alone
    CreateIntegrityOnly,
    /// an existing file with integrity protection alone
    OpenIntegrityOnly,
}

impl SgxStorage {
    /// The directory.
    pub closed spec fn path_spec(&self) -> Seq<char> {
        self.path@
    }

    /// How the files are protected.
    pub closed spec fn mode_spec(&self) -> EncryptMode {
        self.mode
    }

    /// A storage in the given directory.
    pub fn new(path: &str, mode: EncryptMode) -> (r: Self)
        ensures
            r.path_spec() == path@,
            r.mode_spec() == mode,
    {
        SgxStorage { path: path.to_owned(), mode }
    }

    /// The directory.
    pub fn path(&self) -> (r: &str)
        ensures
            r@ == self.path_spec(),
    {
        self.path.as_str()
    }

    /// Whether the integrity of the files as a whole is protected.
    pub fn protect_integrity(&self) -> (r: bool)
        ensures
            r == (self.mode_spec() is IntegrityOnly || self.mode_spec() is EncryptWithIntegrity),
    {
        match self.mode {
            EncryptMode::IntegrityOnly => true,
            EncryptMode::EncryptWithIntegrity(_) => true,
            _ => false,
        }
    }

    /// How a file of this storage is opened; `None` for the modes that are not served yet.
    pub fn file_open(&self, create: bool) -> (r: Option<OpenAction>)
        ensures
            r == if self.mode_spec() is IntegrityOnly {
                if create {
                    Some(OpenAction::CreateIntegrityOnly)
                } else {
                    Some(OpenAction::OpenIntegrityOnly)
                }
            } else {
                None
            },
    {
        match self.mode {
            EncryptMode::IntegrityOnly => if create {
                Some(OpenAction::CreateIntegrityOnly)
            } else {
                Some(OpenAction::OpenIntegrityOnly)
            },
            _ => None,
        }
    }
}

/// What went wrong on a device, as an error number.
#[derive(Debug, Copy, Clone, PartialEq, Eq, Structural)]
pub struct DevError(pub i32);

/// error number of an invalid argument
pub const EINVAL: i32 = 22;

/// The outcome of writing `len` of `buf_len` bytes: a file takes all of them or none.
pub fn write_outcome(len: usize, buf_len: usize) -> (r: Result<usize, DevError>)
    ensures
        r == if len == buf_len {
            Ok::<usize, DevError>(len)
        } else {
            Err(DevError(EINVAL))
        },
{
    if len != buf_len {
        return Err(DevError(EINVAL));
    }
    Ok(len)
}

/// The outcome of a flush that ended with the given status.
pub fn flush_outcome(status: i32) -> (r: Result<(), DevError>)
    ensures
        r == if status == 0 {
            Ok::<(), DevError>(())
        } else {
            Err(DevError(status))
        },
{
    match status {
        0 => Ok(()),
        e => Err(DevError(e)),
    }
}

/// The tag of a file, or zeros where the file has none.
pub fn mac_outcome(tag: Option<MacTag>) -> (mac: MacTag)
    ensures
        match tag {
            Some(t) => mac == t,
            None => mac@ == Seq::new(16, |i: int| 0u8),
        },
{
    match tag {
        Some(t) => t,
        None => {
            let zero: [u8; 16] = [0u8; 16];
            assert(zero@ =~= Seq::new(16, |i: int| 0u8));
            zero
        },
    }
}

/// The sixteen hexadecimal digits in ascending order, in lower case.
pub open spec fn lower_digits() -> Seq<u8> {
    seq![48u8, 49, 50, 51, 52, 53, 54, 55, 56, 57, 97, 98, 99, 100, 101, 102]
}

/// The sixteen hexadecimal digits in ascending order, in upper case.
pub open spec fn upper_digits() -> Seq<u8> {
    seq![48u8, 49, 50, 51, 52, 53, 54, 55, 56, 57, 65, 66, 67, 68, 69, 70]
}

/// `c` is the hexadecimal digit of value `v`.
pub open spec fn stands_for(c: u8, v: int) -> bool {
    0 <= v < 16 && (c == lower_digits()[v] || c == upper_digits()[v])
}

/// `c` is a hexadecimal digit.
pub open spec fn is_digit(c: u8) -> bool {
    exists|v: int| stands_for(c, v)
}

/// The digits are those that are read.
proof fn lemma_digits(c: u8)
    ensures
        is_digit(c) <==> digit_of(c) is Some,
        forall|v: int| #[trigger] stands_for(c, v) ==> digit_of(c) == Some(v),
{
    if digit_of(c) is Some {
        assert(stands_for(c, digit_of(c)->0));
    }
}

/// Reading one digit more.
proof fn lemma_digits_push(high: int, s: Seq<u8>, c: u8)
    ensures
        digits_from(high, s) is Err ==> digits_from(high, s.push(c)) == digits_from(high, s),
        digits_from(high, s) matches Ok(x) ==> digits_from(high, s.push(c)) == match digit_of(c) {
            None => Err::<int, KeyError>(KeyError::InvalidDigit),
            Some(v) => if x * 16 + v > 255 {
                Err(KeyError::Overflow)
            } else {
                Ok(x * 16 + v)
            },
        },
    decreases s.len(),
{
    let t = s.push(c);
    if s.len() == 0 {
        assert(t[0] == c);
        match digit_of(c) {
            Some(v) => {
                if high * 16 + v <= 255 {
                    assert(digits_from(high * 16 + v, t.skip(1)) == Ok::<int, KeyError>(
                        high * 16 + v,
                    ));
                }
            },
            None => {},
        }
    } else {
        assert(t[0] == s[0]);
        assert(t.skip(1) =~= s.skip(1).push(c));
        match digit_of(s[0]) {
            Some(v) => {
                if high * 16 + v <= 255 {
                    lemma_digits_push(high * 16 + v, s.skip(1), c);
                }
            },
            None => {},
        }
    }
}

/// Two digits stand for sixteen times the value of the first and the value of the second.
pub proof fn law_two_digits(s: &[u8], a: int, b: int, r: Result<u8, KeyError>)
    requires
        s@.len() == 2,
        stands_for(s@[0], a),
        stands_for(s@[1], b),
        call_ensures(parse_byte, (s,), r),
    ensures
        r == Ok::<u8, KeyError>((16 * a + b) as u8),
        0 <= 16 * a + b <= 255,
{
    lemma_digits(s@[0]);
    lemma_digits(s@[1]);
    let e = Seq::<u8>::empty();
    lemma_digits_push(0, e, s@[0]);
    lemma_digits_push(0, e.push(s@[0]), s@[1]);
    assert(s@ =~= e.push(s@[0]).push(s@[1]));
}

/// Any byte that is written as two digits is read back.
pub proof fn law_byte_round_trip(s: &[u8], x: u8, r: Result<u8, KeyError>)
    requires
        s@.len() == 2,
        s@[0] == lower_digits()[x as int / 16] || s@[0] == upper_digits()[x as int / 16],
        s@[1] == lower_digits()[x as int % 16] || s@[1] == upper_digits()[x as int % 16],
        call_ensures(parse_byte, (s,), r),
    ensures
        r == Ok::<u8, KeyError>(x),
{
    assert(stands_for(s@[0], x as int / 16));
    assert(stands_for(s@[1], x as int % 16));
    law_two_digits(s, x as int / 16, x as int % 16, r);
}

/// What one character more at the end does. Together with what the empty string gives, this says what
/// every string gives: nothing is read from an empty string; a plus sign may stand at the start; a
/// digit more multiplies by sixteen and adds its value, unless that does not fit into a byte; no other
/// character is taken, and what has been refused stays refused.
pub proof fn law_byte_push(s: &[u8], c: u8, t: &[u8], r: Result<u8, KeyError>, q: Result<u8, KeyError>)
    requires
        t@ == s@.push(c),
        call_ensures(parse_byte, (s,), r),
        call_ensures(parse_byte, (t,), q),
    ensures
        s@.len() == 0 ==> r == Err::<u8, KeyError>(KeyError::Empty),
        s@ == seq![43u8] ==> r == Err::<u8, KeyError>(KeyError::InvalidDigit),
        s@.len() == 0 || s@ == seq![43u8] ==> forall|v: int| #[trigger]
            stands_for(c, v) ==> q == Ok::<u8, KeyError>(v as u8),
        !is_digit(c) && (s@.len() == 0 || s@ == seq![43u8] || r is Ok) ==> q == Err::<u8, KeyError>(
            KeyError::InvalidDigit,
        ),
        r matches Ok(x) ==> forall|v: int| #[trigger]
            stands_for(c, v) ==> q == if 16 * x + v <= 255 {
                Ok::<u8, KeyError>((16 * x + v) as u8)
            } else {
                Err(KeyError::Overflow)
            },
        r is Err && s@.len() > 0 && s@ != seq![43u8] ==> q == r,
{
    lemma_digits(c);
    let (a, b) = (s@, t@);
    if a.len() == 0 {
        lemma_digits_push(0, a, c);
        assert(b =~= a.push(c));
        assert(b[0] == c);
    } else if a[0] == 43 {
        assert(b.skip(1) =~= a.skip(1).push(c));
        lemma_digits_push(0, a.skip(1), c);
        if a.len() == 1 {
            assert(a =~= seq![43u8]);
        }
    } else {
        lemma_digits_push(0, a, c);
        assert(a != seq![43u8]);
    }
}

/// The parts with dashes between them.
pub open spec fn joined(parts: Seq<Seq<u8>>) -> Seq<u8>
    decreases parts.len(),
{
    if parts.len() == 0 {
        Seq::empty()
    } else if parts.len() == 1 {
        parts[0]
    } else {
        joined(parts.drop_last()).push(45) + parts.last()
    }
}

/// A part that no dash cuts.
pub open spec fn whole(part: Seq<u8>) -> bool {
    forall|i: int| 0 <= i < part.len() ==> part[i] != 45
}

/// A part at the end is one piece.
proof fn lemma_last_piece(s: Seq<u8>, part: Seq<u8>)
    requires
        whole(part),
    ensures
        pieces(s.push(45) + part) == pieces(s).push(part),
    decreases part.len(),
{
    let t = s.push(45) + part;
    if part.len() == 0 {
        assert(t =~= s.push(45));
        assert(t.drop_last() =~= s);
        assert(part =~= Seq::<u8>::empty());
    } else {
        let p = part.drop_last();
        lemma_last_piece(s, p);
        assert(t.drop_last() =~= s.push(45) + p);
        assert(t.last() == part.last());
        assert(p.push(part.last()) =~= part);
        assert(pieces(s).push(p).drop_last() =~= pieces(s));
    }
}

/// A string without dashes is one piece.
proof fn lemma_one_piece(part: Seq<u8>)
    requires
        whole(part),
    ensures
        pieces(part) == seq![part],
    decreases part.len(),
{
    if part.len() > 0 {
        let p = part.drop_last();
        lemma_one_piece(p);
        assert(p.push(part.last()) =~= part);
        assert(seq![p].drop_last() =~= Seq::<Seq<u8>>::empty());
        assert(pieces(part) =~= seq![part]);
    } else {
        assert(part =~= Seq::<u8>::empty());
    }
}

/// Cutting at dashes undoes joining with dashes.
proof fn lemma_joined(parts: Seq<Seq<u8>>)
    requires
        parts.len() > 0,
        forall|i: int| 0 <= i < parts.len() ==> whole(#[trigger] parts[i]),
    ensures
        pieces(joined(parts)) == parts,
    decreases parts.len(),
{
    if parts.len() == 1 {
        lemma_one_piece(parts[0]);
        assert(seq![parts[0]] =~= parts);
    } else {
        let front = parts.drop_last();
        assert forall|i: int| 0 <= i < front.len() implies whole(#[trigger] front[i]) by {
            assert(front[i] == parts[i]);
        }
        lemma_joined(front);
        lemma_last_piece(joined(front), parts.last());
        assert(front.push(parts.last()) =~= parts);
    }
}

/// A key is read from sixteen parts with dashes between them, each part as a byte is read. Any other
/// number of parts is refused for that, and else the first part that is refused decides.
pub proof fn law_key_parts(
    key_str: &str,
    parts: Seq<&[u8]>,
    q: Seq<Result<u8, KeyError>>,
    r: Result<Key128bit, KeyError>,
)
    requires
        parts.len() > 0,
        q.len() == parts.len(),
        forall|i: int| 0 <= i < parts.len() ==> whole((#[trigger] parts[i])@),
        forall|i: int|
            0 <= i < parts.len() ==> call_ensures(parse_byte, (#[trigger] parts[i],), q[i]),
        key_str.spec_bytes() == joined(parts.map_values(|p: &[u8]| p@)),
        call_ensures(EncryptMode::parse_key, (key_str,), r),
    ensures
        parts.len() != 16 <==> r == Err::<Key128bit, KeyError>(KeyError::Format),
        parts.len() == 16 ==> (r is Ok <==> forall|i: int| 0 <= i < 16 ==> #[trigger] q[i] is Ok),
        r matches Ok(k) ==> forall|i: int|
            0 <= i < 16 ==> #[trigger] q[i] == Ok::<u8, KeyError>(k[i]),
        r is Err && parts.len() == 16 ==> exists|i: int|
            0 <= i < 16 && #[trigger] q[i] == Err::<u8, KeyError>(r->Err_0) && forall|j: int|
                0 <= j < i ==> #[trigger] q[j] is Ok,
{
    let p = parts.map_values(|p: &[u8]| p@);
    assert forall|i: int| 0 <= i < p.len() implies whole(#[trigger] p[i]) by {
        assert(p[i] == parts[i]@);
    }
    lemma_joined(p);
    assert forall|i: int| 0 <= i < p.len() implies match byte_of(#[trigger] p[i]) {
        Ok(x) => q[i] == Ok::<u8, KeyError>(x as u8) && 0 <= x <= 255,
        Err(e) => q[i] == Err::<u8, KeyError>(e),
    } by {
        assert(call_ensures(parse_byte, (parts[i],), q[i]));
        assert(p[i] == parts[i]@);
    }
    assert forall|i: int| 0 <= i < p.len() implies byte_of(#[trigger] p[i]) != Err::<int, KeyError>(
        KeyError::Format,
    ) by {
        lemma_no_format(p[i]);
    }
    match r {
        Ok(k) => {
            assert forall|i: int| 0 <= i < 16 implies #[trigger] q[i] == Ok::<u8, KeyError>(k[i]) by {
                assert(byte_of(p[i]) == Ok::<int, KeyError>(k[i] as int));
            }
        },
        Err(e) => {
            if parts.len() == 16 {
                let i = choose|i: int|
                    {
                        &&& 0 <= i < 16
                        &&& byte_of(#[trigger] p[i]) == Err::<int, KeyError>(e)
                        &&& forall|j: int| 0 <= j < i ==> byte_of(#[trigger] p[j]) is Ok
                    };
                assert(q[i] == Err::<u8, KeyError>(e));
                assert forall|j: int| 0 <= j < i implies #[trigger] q[j] is Ok by {
                    assert(byte_of(p[j]) is Ok);
                }
            }
        },
    }
}

/// A part is never refused for the number of parts.
proof fn lemma_no_format(s: Seq<u8>)
    ensures
        byte_of(s) != Err::<int, KeyError>(KeyError::Format),
{
    lemma_digits_no_format(0, s);
    if s.len() > 0 {
        lemma_digits_no_format(0, s.skip(1));
    }
}

proof fn lemma_digits_no_format(high: int, s: Seq<u8>)
    ensures
        digits_from(high, s) != Err::<int, KeyError>(KeyError::Format),
    decreases s.len(),
{
    if s.len() > 0 {
        match digit_of(s[0]) {
            Some(v) => {
                if high * 16 + v <= 255 {
                    lemma_digits_no_format(high * 16 + v, s.skip(1));
                }
            },
            None => {},
        }
    }
}

/// A key that is written as two digits for each byte, with dashes between them, is read back.
pub proof fn law_key_round_trip(
    key_str: &str,
    parts: Seq<&[u8]>,
    q: Seq<Result<u8, KeyError>>,
    key: Key128bit,
    r: Result<Key128bit, KeyError>,
)
    requires
        parts.len() == 16,
        q.len() == 16,
        forall|i: int|
            0 <= i < 16 ==> {
                &&& (#[trigger] parts[i])@.len() == 2
                &&& parts[i]@[0] == lower_digits()[key[i] as int / 16] || parts[i]@[0]
                    == upper_digits()[key[i] as int / 16]
                &&& parts[i]@[1] == lower_digits()[key[i] as int % 16] || parts[i]@[1]
                    == upper_digits()[key[i] as int % 16]
            },
        forall|i: int| 0 <= i < 16 ==> call_ensures(parse_byte, (#[trigger] parts[i],), q[i]),
        key_str.spec_bytes() == joined(parts.map_values(|p: &[u8]| p@)),
        call_ensures(EncryptMode::parse_key, (key_str,), r),
    ensures
        r is Ok,
        r->Ok_0@ == key@,
{
    assert forall|i: int| 0 <= i < 16 implies whole((#[trigger] parts[i])@) && q[i] == Ok::<
        u8,
        KeyError,
    >(key[i]) by {
        law_byte_round_trip(parts[i], key[i], q[i]);
        lemma_digits(parts[i]@[0]);
        lemma_digits(parts[i]@[1]);
    }
    law_key_parts(key_str, parts, q, r);
    assert forall|i: int| 0 <= i < 16 implies #[trigger] q[i] is Ok by {
        assert(whole(parts[i]@));
    }
    assert forall|i: int| 0 <= i < 16 implies r->Ok_0@[i] == key@[i] by {
        assert(whole(parts[i]@));
        assert(q[i] == Ok::<u8, KeyError>(r->Ok_0[i]));
    }
    assert(r->Ok_0@ =~= key@);
}

/// The mode that parameters ask for protects integrity if and only if they ask for that. A key is the
/// one that the key string is read as, and its refusal the refusal of the parameters. Files are opened
/// in the one mode that is served: integrity without a key.
pub proof fn law_modes(
    protect: bool,
    key: &Option<String>,
    r: Result<EncryptMode, KeyError>,
    key_str: &str,
    q: Result<Key128bit, KeyError>,
    path: &str,
    storage: SgxStorage,
    b: bool,
    path2: &str,
    create: bool,
    action: Option<OpenAction>,
)
    requires
        call_ensures(EncryptMode::from_parameters, (protect, key), r),
        *key matches Some(s) ==> key_str@ == s@,
        call_ensures(EncryptMode::parse_key, (key_str,), q),
        r matches Ok(mode) ==> call_ensures(SgxStorage::new, (path, mode), storage),
        call_ensures(SgxStorage::protect_integrity, (&storage,), b),
        call_ensures(SgxStorage::path, (&storage,), path2),
        call_ensures(SgxStorage::file_open, (&storage, create), action),
    ensures
        *key is None ==> r is Ok,
        *key is Some ==> (r is Ok <==> q is Ok),
        *key is Some && q is Err ==> r->Err_0 == q->Err_0,
        r is Ok ==> b == protect,
        r is Ok ==> path2@ == path@,
        r is Ok ==> (action is Some <==> protect && *key is None),
        r is Ok && action is Some ==> (action->0 is CreateIntegrityOnly <==> create),
        *key is Some ==> (r matches Ok(EncryptMode::EncryptWithIntegrity(k)) ==> q is Ok && k@
            == q->Ok_0@),
        *key is Some ==> (r matches Ok(EncryptMode::Encrypt(k)) ==> q is Ok && k@ == q->Ok_0@),
        *key is None ==> !(r->Ok_0 is Encrypt) && !(r->Ok_0 is EncryptWithIntegrity),
{
    match *key {
        Some(s) => {
            assert(key_str.spec_bytes() == encode_utf8(s@));
            let bytes = encode_utf8(s@);
            match r {
                Ok(EncryptMode::EncryptWithIntegrity(k)) => {
                    law_key_read(bytes, Ok(k), q);
                },
                Ok(EncryptMode::Encrypt(k)) => {
                    law_key_read(bytes, Ok(k), q);
                },
                Err(e) => {
                    law_key_read(bytes, Err(e), q);
                },
                _ => {},
            }
        },
        None => {},
    }
}

/// A write counts if and only if all was written; a flush counts if and only if its status is zero, and
/// else the status is the error; a tag is handed on as it is, and where there is none it is all zero.
pub proof fn law_outcomes(
    len: usize,
    buf_len: usize,
    w: Result<usize, DevError>,
    status: i32,
    f: Result<(), DevError>,
    tag: Option<MacTag>,
    mac: MacTag,
)
    requires
        call_ensures(write_outcome, (len, buf_len), w),
        call_ensures(flush_outcome, (status,), f),
        call_ensures(mac_outcome, (tag,), mac),
    ensures
        w is Ok <==> len == buf_len,
        w matches Ok(n) ==> n == buf_len,
        w matches Err(e) ==> e.0 == 22,
        f is Ok <==> status == 0,
        f matches Err(e) ==> e.0 == status,
        tag matches Some(t) ==> mac == t,
        tag is None ==> forall|i: int| 0 <= i < 16 ==> #[trigger] mac@[i] == 0,
{
}

} // verus!
