//! A string that stores up to `LIMIT` bytes inline and longer content in a
//! clone-on-write [`EcoVec`].
use crate::vec::EcoVec;
use vstd::prelude::*;
use vstd::std_specs::iter::IteratorSpec;
use vstd::utf8::*;

verus! {

broadcast use vstd::utf8::group_utf8_lib, vstd::string::group_string_axioms;

/// The maximum number of bytes that are stored inline. It is at least four,
/// so that any single character fits.
pub const LIMIT: usize = 14;

/// Relies on `core::str::from_utf8`: on valid UTF-8 it returns the string
/// slice made of exactly these bytes.
#[verifier::external_body]
fn str_of(b: &[u8]) -> (r: &str)
    requires
        valid_utf8(b@),
    ensures
        r@ == decode_utf8(b@),
{
    match core::str::from_utf8(b) {
        Ok(s) => s,
        Err(_) => "",
    }
}

/// Relies on `char::encode_utf8`: the UTF-8 encoding of `c` stands at the
/// front of a four-byte buffer, and its length is returned beside it.
#[verifier::external_body]
fn utf8_of(c: char) -> (r: ([u8; 4], usize))
    ensures
        r.1 == encode_scalar(c as u32).len(),
        r.0@.take(r.1 as int) == encode_scalar(c as u32),
{
    let mut buf = [0u8; 4];
    let n = c.encode_utf8(&mut buf).len();
    (buf, n)
}

/// Relies on `DoubleEndedIterator::next_back` of `str::chars`: the last
/// character of the string, if there is one.
#[verifier::external_body]
fn last_char(s: &str) -> (r: Option<char>)
    ensures
        r == if s@.len() == 0 {
            None::<char>
        } else {
            Some(s@.last())
        },
{
    s.chars().next_back()
}

/// The UTF-8 encoding of a concatenation is the concatenation of the
/// encodings.
pub proof fn lemma_encode_concat(a: Seq<char>, b: Seq<char>)
    ensures
        encode_utf8(a + b) == encode_utf8(a) + encode_utf8(b),
    decreases a.len(),
{
    if a.len() == 0 {
        assert(a + b =~= b);
        assert(encode_utf8(a) + encode_utf8(b) =~= encode_utf8(b));
    } else {
        assert((a + b).drop_first() =~= a.drop_first() + b);
        lemma_encode_concat(a.drop_first(), b);
        assert(encode_utf8(a + b) =~= encode_utf8(a) + encode_utf8(b));
    }
}

/// The encoding of one character.
proof fn lemma_encode_one(c: char)
    ensures
        encode_utf8(seq![c]) == encode_scalar(c as u32),
{
    assert(seq![c].drop_first() =~= Seq::<char>::empty());
    assert(encode_utf8(Seq::<char>::empty()) =~= Seq::<u8>::empty());
    assert(encode_scalar(c as u32) + Seq::<u8>::empty() =~= encode_scalar(c as u32));
}

/// How the bytes are held.
enum Repr {
    /// The first `len` bytes of `buf`, with `len <= LIMIT`.
    Small { buf: [u8; LIMIT], len: u8 },
    /// A heap buffer shared by clones until one of them changes it.
    Large(EcoVec<u8>),
}

/// An economical string: short content is stored inline, longer content in
/// a reference-counted buffer that clones share until one of them is
/// changed. The stored bytes are always valid UTF-8.
pub struct EcoString(Repr);

impl View for EcoString {
    type V = Seq<char>;

    /// The characters of the string.
    closed spec fn view(&self) -> Seq<char> {
        decode_utf8(self.bytes())
    }
}

impl EcoString {
    /// The stored bytes.
    pub closed spec fn bytes(&self) -> Seq<u8> {
        match self.0 {
            Repr::Small { buf, len } => buf@.take(
                if len <= LIMIT {
                    len as int
                } else {
                    LIMIT as int
                },
            ),
            Repr::Large(v) => v@,
        }
    }

    /// Whether the content is stored inline.
    pub closed spec fn inline(&self) -> bool {
        self.0 is Small
    }

    /// The invariant: an inline length within `LIMIT`, and valid UTF-8.
    pub closed spec fn wf(&self) -> bool {
        &&& match self.0 {
            Repr::Small { buf, len } => len <= LIMIT,
            Repr::Large(v) => true,
        }
        &&& valid_utf8(self.bytes())
    }

    /// The stored bytes are the encoding of the characters, and the
    /// characters are what the bytes decode to.
    pub proof fn lemma_bytes(&self)
        requires
            self.wf(),
        ensures
            self.bytes() == encode_utf8(self@),
            self@ == decode_utf8(self.bytes()),
    {
    }

    /// Create a new, empty string.
    pub fn new() -> (r: Self)
        ensures
            r.wf(),
            r@ == Seq::<char>::empty(),
            r.inline(),
    {
        let r = EcoString(Repr::Small { buf: [0u8; LIMIT], len: 0 });
        assert(r.bytes() =~= Seq::<u8>::empty());
        r
    }

    /// Create a new, empty string with room for `capacity` bytes. It is
    /// stored inline when `capacity` is at most `LIMIT`.
    pub fn with_capacity(capacity: usize) -> (r: Self)
        ensures
            r.wf(),
            r@ == Seq::<char>::empty(),
            r.inline() == (capacity <= LIMIT),
    {
        if capacity <= LIMIT {
            Self::new()
        } else {
            let r = EcoString(Repr::Large(EcoVec::with_capacity(capacity)));
            assert(r.bytes() =~= Seq::<u8>::empty());
            r
        }
    }

    /// Create a string holding the characters of `string`; it is stored
    /// inline when `string` takes at most `LIMIT` bytes.
    pub fn from_str(string: &str) -> (r: Self)
        ensures
            r.wf(),
            r@ == string@,
            r.inline() == (encode_utf8(string@).len() <= LIMIT),
    {
        let bytes = string.as_bytes();
        let len = bytes.len();
        let mut r = if len <= LIMIT {
            Self::new()
        } else {
            Self::with_capacity(len)
        };
        r.push_bytes(bytes);
        assert(r.bytes() =~= bytes@);
        r
    }

    /// Whether the string is empty.
    pub fn is_empty(&self) -> (r: bool)
        requires
            self.wf(),
        ensures
            r == (self@.len() == 0),
    {
        self.len() == 0
    }

    /// The length of the string in bytes.
    pub fn len(&self) -> (r: usize)
        requires
            self.wf(),
        ensures
            r == encode_utf8(self@).len(),
    {
        match &self.0 {
            Repr::Small { len, .. } => *len as usize,
            Repr::Large(v) => v.len(),
        }
    }

    /// The stored bytes, borrowed.
    fn as_bytes(&self) -> (r: &[u8])
        ensures
            r@ == self.bytes(),
    {
        match &self.0 {
            Repr::Small { buf, len } => vstd::slice::slice_subrange(
                vstd::array::array_as_slice(buf),
                0,
                if (*len as usize) <= LIMIT {
                    *len as usize
                } else {
                    LIMIT
                },
            ),
            Repr::Large(v) => v.as_slice(),
        }
    }

    /// A string slice containing the entire string.
    pub fn as_str(&self) -> (r: &str)
        requires
            self.wf(),
        ensures
            r@ == self@,
    {
        str_of(self.as_bytes())
    }

    /// Whether the content is stored inline rather than on the heap.
    pub fn is_inline(&self) -> (r: bool)
        ensures
            r == self.inline(),
    {
        match &self.0 {
            Repr::Small { .. } => true,
            Repr::Large(_) => false,
        }
    }

    /// Appends bytes that are valid UTF-8. Inline content that would grow
    /// past `LIMIT` moves to a heap buffer sized for the whole result.
    fn push_bytes(&mut self, bytes: &[u8])
        requires
            old(self).wf(),
            valid_utf8(bytes@),
        ensures
            final(self).wf(),
            final(self).bytes() == old(self).bytes() + bytes@,
            final(self).inline() == (old(self).inline() && old(self).bytes().len() + bytes@.len()
                <= LIMIT),
    {
        let n = bytes.len();
        let promoted: Option<EcoVec<u8>> = match &mut self.0 {
            Repr::Small { buf, len } => {
                let prev = *len as usize;
                if n <= LIMIT - prev {
                    let mut i: usize = 0;
                    while i < n
                        invariant
                            i <= n == bytes@.len(),
                            prev + n <= LIMIT,
                            buf@.len() == LIMIT,
                            buf@.take(prev as int) == old(self).bytes(),
                            buf@.subrange(prev as int, prev + i) == bytes@.take(i as int),
                        decreases n - i,
                    {
                        buf[prev + i] = bytes[i];
                        i += 1;
                        assert(buf@.subrange(prev as int, prev + i) =~= bytes@.take(i as int));
                    }
                    *len = (prev + n) as u8;
                    assert(bytes@.take(n as int) =~= bytes@);
                    assert(buf@.take(prev + n) =~= old(self).bytes() + bytes@);
                    None
                } else {
                    let capacity = if n <= usize::MAX - prev { prev + n } else { usize::MAX };
                    let mut v: EcoVec<u8> = EcoVec::with_capacity(capacity);
                    v.extend_from_slice(vstd::slice::slice_subrange(
                        vstd::array::array_as_slice(buf),
                        0,
                        prev,
                    ));
                    v.extend_from_slice(bytes);
                    Some(v)
                }
            },
            Repr::Large(v) => {
                v.extend_from_slice(bytes);
                None
            },
        };
        if let Some(v) = promoted {
            self.0 = Repr::Large(v);
        }
    }

    /// Append the given string slice at the end.
    pub fn push_str(&mut self, string: &str)
        requires
            old(self).wf(),
        ensures
            final(self).wf(),
            final(self)@ == old(self)@ + string@,
            final(self).inline() == (old(self).inline() && encode_utf8(old(self)@).len()
                + encode_utf8(string@).len() <= LIMIT),
    {
        proof {
            lemma_encode_concat(old(self)@, string@);
        }
        self.push_bytes(string.as_bytes());
    }

    /// Append the given character at the end.
    pub fn push(&mut self, c: char)
        requires
            old(self).wf(),
        ensures
            final(self).wf(),
            final(self)@ == old(self)@.push(c),
            final(self).inline() == (old(self).inline() && encode_utf8(old(self)@).len()
                + encode_scalar(c as u32).len() <= LIMIT),
    {
        proof {
            lemma_encode_one(c);
            lemma_encode_concat(old(self)@, seq![c]);
            assert(old(self)@.push(c) =~= old(self)@ + seq![c]);
        }
        if (c as u32) < 128 {
            proof {
                assert(is_ascii_chars(seq![c]));
                is_ascii_chars_encode_utf8(seq![c]);
                assert(encode_scalar(c as u32) =~= seq![c as u8]);
            }
            match &mut self.0 {
                Repr::Small { buf, len } => {
                    let prev = *len as usize;
                    if prev < LIMIT {
                        buf[prev] = c as u8;
                        *len = (prev + 1) as u8;
                        assert(buf@.take(prev + 1) =~= old(self).bytes() + seq![c as u8]);
                        return ;
                    }
                },
                Repr::Large(v) => {
                    v.push(c as u8);
                    assert(v@ =~= old(self).bytes() + seq![c as u8]);
                    return ;
                },
            }
        }
        let (buf, n) = utf8_of(c);
        self.push_bytes(vstd::slice::slice_subrange(vstd::array::array_as_slice(&buf), 0, n));
    }

    /// Remove the last character and return it, or `None` when the string
    /// is empty. The representation does not change.
    pub fn pop(&mut self) -> (r: Option<char>)
        requires
            old(self).wf(),
        ensures
            final(self).wf(),
            final(self).inline() == old(self).inline(),
            old(self)@.len() == 0 ==> r is None && final(self)@ == old(self)@,
            old(self)@.len() > 0 ==> r == Some(old(self)@.last()) && final(self)@ == old(
                self,
            )@.drop_last(),
    {
        let c = match last_char(self.as_str()) {
            Some(c) => c,
            None => return None,
        };
        let (_, k) = utf8_of(c);
        proof {
            let rest = old(self)@.drop_last();
            assert(old(self)@ =~= rest + seq![c]);
            lemma_encode_one(c);
            lemma_encode_concat(rest, seq![c]);
            assert(old(self).bytes().take(encode_utf8(rest).len() as int) =~= encode_utf8(rest));
        }
        let shrunk = self.len() - k;
        match &mut self.0 {
            Repr::Small { buf, len } => {
                *len = shrunk as u8;
                assert(buf@.take(shrunk as int) =~= old(self).bytes().take(shrunk as int));
            },
            Repr::Large(v) => v.truncate(shrunk),
        }
        Some(c)
    }

    /// Clear the string. The representation does not change.
    pub fn clear(&mut self)
        requires
            old(self).wf(),
        ensures
            final(self).wf(),
            final(self)@ == Seq::<char>::empty(),
            final(self).inline() == old(self).inline(),
    {
        match &mut self.0 {
            Repr::Small { buf, len } => *len = 0,
            Repr::Large(v) => v.clear(),
        }
        assert(self.bytes() =~= Seq::<u8>::empty());
    }
}

impl PartialEq for EcoString {
    /// Whether the two strings hold the same bytes, whatever their
    /// representations.
    fn eq(&self, other: &Self) -> (r: bool) {
        let a = self.as_bytes();
        let b = other.as_bytes();
        if a.len() != b.len() {
            return false;
        }
        let mut i: usize = 0;
        while i < a.len()
            invariant
                a@ == self.bytes(),
                b@ == other.bytes(),
                a@.len() == b@.len(),
                i <= a@.len(),
                a@.take(i as int) == b@.take(i as int),
            decreases a@.len() - i,
        {
            if a[i] != b[i] {
                assert(a@[i as int] != b@[i as int]);
                return false;
            }
            assert(a@.take(i + 1) =~= a@.take(i as int).push(a@[i as int]));
            assert(b@.take(i + 1) =~= b@.take(i as int).push(b@[i as int]));
            i += 1;
        }
        assert(a@ =~= a@.take(i as int));
        assert(b@ =~= b@.take(i as int));
        true
    }
}

impl vstd::std_specs::cmp::PartialEqSpecImpl for EcoString {
    open spec fn obeys_eq_spec() -> bool {
        true
    }

    open spec fn eq_spec(&self, o: &EcoString) -> bool {
        self.bytes() == o.bytes()
    }
}

impl Eq for EcoString {
}

impl Default for EcoString {
    /// The empty string, stored inline.
    fn default() -> (r: Self)
        ensures
            r.wf(),
            r@ == Seq::<char>::empty(),
            r.inline(),
    {
        Self::new()
    }
}

impl Clone for EcoString {
    /// Another value with the same content and representation; a heap
    /// buffer is shared, not copied.
    fn clone(&self) -> (r: Self)
        ensures
            r.bytes() == self.bytes(),
            r@ == self@,
            r.inline() == self.inline(),
            self.wf() ==> r.wf(),
    {
        match &self.0 {
            Repr::Small { buf, len } => EcoString(Repr::Small { buf: *buf, len: *len }),
            Repr::Large(v) => EcoString(Repr::Large(v.clone())),
        }
    }
}


/// What `char::to_lowercase` yields for a character.
pub uninterp spec fn lower_of(c: char) -> Seq<char>;

/// What `char::to_uppercase` yields for a character.
pub uninterp spec fn upper_of(c: char) -> Seq<char>;

/// What `str::to_lowercase` yields for a whole string.
pub uninterp spec fn lower_str_of(s: Seq<char>) -> Seq<char>;

/// An ASCII letter moved to the other case when it is in the case that
/// `upper` does not ask for; any other character is left as it is.
pub open spec fn ascii_case(c: char, upper: bool) -> char {
    if !upper && 'A' <= c && c <= 'Z' {
        ((c as u32) + 32) as char
    } else if upper && 'a' <= c && c <= 'z' {
        ((c as u32) - 32) as char
    } else {
        c
    }
}

/// Each character of `s` mapped by `ascii_case`.
pub open spec fn ascii_cased(s: Seq<char>, upper: bool) -> Seq<char> {
    s.map_values(|c: char| ascii_case(c, upper))
}

/// The characters that `char::to_lowercase` yields for each character of
/// `s`, in order.
pub open spec fn lower_each(s: Seq<char>) -> Seq<char>
    decreases s.len(),
{
    if s.len() == 0 {
        Seq::empty()
    } else {
        lower_each(s.drop_last()) + lower_of(s.last())
    }
}

/// The characters that `char::to_uppercase` yields for each character of
/// `s`, in order.
pub open spec fn upper_each(s: Seq<char>) -> Seq<char>
    decreases s.len(),
{
    if s.len() == 0 {
        Seq::empty()
    } else {
        upper_each(s.drop_last()) + upper_of(s.last())
    }
}

/// The lowercase form of `s`: ASCII content maps letter by letter; content
/// with a capital sigma, whose lowercase form depends on its place in a
/// word, is lowered as a whole string; any other content character by
/// character.
pub open spec fn lowercase(s: Seq<char>) -> Seq<char> {
    if is_ascii_chars(s) {
        ascii_cased(s, false)
    } else if s.contains('\u{3a3}') {
        lower_str_of(s)
    } else {
        lower_each(s)
    }
}

/// The uppercase form of `s`: ASCII content maps letter by letter, any
/// other content character by character.
pub open spec fn uppercase(s: Seq<char>) -> Seq<char> {
    if is_ascii_chars(s) {
        ascii_cased(s, true)
    } else {
        upper_each(s)
    }
}

/// Relies on `char::to_lowercase`: the characters that it yields, which
/// for an ASCII character are that of `char::to_ascii_lowercase`.
#[verifier::external_body]
fn char_lowercase(c: char) -> (r: String)
    ensures
        r@ == lower_of(c),
        (c as u32) < 128 ==> r@ == seq![ascii_case(c, false)],
{
    c.to_lowercase().collect()
}

/// Relies on `char::to_uppercase`: the characters that it yields, which
/// for an ASCII character are that of `char::to_ascii_uppercase`.
#[verifier::external_body]
fn char_uppercase(c: char) -> (r: String)
    ensures
        r@ == upper_of(c),
        (c as u32) < 128 ==> r@ == seq![ascii_case(c, true)],
{
    c.to_uppercase().collect()
}

/// Relies on `str::to_lowercase`: the lowercase form of the whole string.
#[verifier::external_body]
fn str_lowercase(s: &str) -> (r: String)
    ensures
        r@ == lower_str_of(s@),
{
    s.to_lowercase()
}

/// The byte of an ASCII character moved to the case that `upper` asks for.
fn ascii_case_byte(b: u8, upper: bool) -> (r: u8)
    requires
        b < 128,
    ensures
        r < 128,
        r == ascii_case(b as char, upper) as u8,
{
    if !upper && 65 <= b && b <= 90 {
        b + 32
    } else if upper && 97 <= b && b <= 122 {
        b - 32
    } else {
        b
    }
}

/// Mapping ASCII characters by `ascii_case` keeps them ASCII.
proof fn lemma_ascii_cased(s: Seq<char>, upper: bool)
    requires
        is_ascii_chars(s),
    ensures
        is_ascii_chars(ascii_cased(s, upper)),
        ascii_cased(s, upper).len() == s.len(),
        forall|i: int| 0 <= i < s.len() ==> #[trigger] ascii_cased(s, upper)[i] == ascii_case(s[i], upper),
{
    assert forall|i: int| 0 <= i < s.len() implies '\0' <= #[trigger] ascii_cased(s, upper)[i]
        <= '\u{7f}' by {
        let c = s[i];
        assert(0 <= (c as u32) < 128);
    }
}

impl EcoString {
    /// Inline ASCII content moved byte by byte to the case that `upper` asks
    /// for, as a new inline value; `None` for any other content.
    fn ascii_converted(&self, upper: bool) -> (r: Option<Self>)
        requires
            self.wf(),
        ensures
            r matches Some(t) ==> t.wf() && t.inline() && is_ascii_chars(self@) && t@
                == ascii_cased(self@, upper),
            r is None ==> !(self.inline() && is_ascii_chars(self@)),
    {
        if !self.as_str().is_ascii() {
            return None;
        }
        match &self.0 {
            Repr::Small { buf, len } => {
                let n = *len as usize;
                let ghost chars = self@;
                let ghost mapped = ascii_cased(chars, upper);
                proof {
                    lemma_ascii_cased(chars, upper);
                    is_ascii_chars_encode_utf8(chars);
                    is_ascii_chars_encode_utf8(mapped);
                }
                let mut out = *buf;
                let mut i: usize = 0;
                while i < n
                    invariant
                        i <= n <= LIMIT,
                        n == chars.len() == mapped.len(),
                        forall|j: int| 0 <= j < n ==> #[trigger] mapped[j] == ascii_case(chars[j], upper),
                        out@.len() == LIMIT,
                        buf@.take(n as int) == encode_utf8(chars),
                        encode_utf8(mapped).len() == n,
                        is_ascii_chars(chars),
                        forall|j: int| 0 <= j < n ==> #[trigger] buf@[j] == chars[j] as u8,
                        forall|j: int| 0 <= j < n ==> #[trigger] encode_utf8(mapped)[j] == mapped[j] as u8,
                        forall|j: int| 0 <= j < i ==> #[trigger] out@[j] == mapped[j] as u8,
                    decreases n - i,
                {
                    assert(buf@[i as int] == buf@.take(n as int)[i as int]);
                    let ghost c = chars[i as int];
                    assert(0 <= (c as u32) < 128);
                    let b = ascii_case_byte(buf[i], upper);
                    proof {
                        assert((buf@[i as int] as char) == c);
                        assert(mapped[i as int] == ascii_case(c, upper));
                    }
                    out[i] = b;
                    i += 1;
                }
                let r = EcoString(Repr::Small { buf: out, len: *len });
                assert(r.bytes() =~= encode_utf8(mapped));
                Some(r)
            },
            Repr::Large(_) => None,
        }
    }

    /// Convert the string to lowercase.
    pub fn to_lowercase(&self) -> (r: Self)
        requires
            self.wf(),
        ensures
            r.wf(),
            r@ == lowercase(self@),
    {
        if let Some(r) = self.ascii_converted(false) {
            return r;
        }
        let s = self.as_str();
        let mut lower = Self::with_capacity(s.len());
        let mut it = s.chars();
        let ghost mut i: int = 0;
        let ghost all = self@;
        assert(all.take(0) =~= Seq::<char>::empty());
        loop
            invariant
                lower.wf(),
                s@ == all,
                all == self@,
                0 <= i <= all.len(),
                it.remaining() == all.skip(i),
                !all.take(i).contains('\u{3a3}'),
                lower@ == lower_each(all.take(i)),
                is_ascii_chars(all.take(i)) ==> lower@ == ascii_cased(all.take(i), false),
            ensures
                lower.wf(),
                lower@ == lowercase(all),
            decreases all.len() - i,
        {
            match it.next() {
                None => {
                    assert(all.take(i) =~= all);
                    break;
                },
                Some(c) => {
                    assert(c == all[i]);
                    if c == '\u{3a3}' {
                        assert(all.contains('\u{3a3}'));
                        assert(!is_ascii_chars(all));
                        return Self::from_str(str_lowercase(s).as_str());
                    }
                    let piece = char_lowercase(c);
                    lower.push_str(piece.as_str());
                    proof {
                        let t = all.take(i + 1);
                        assert(t.drop_last() =~= all.take(i));
                        assert(t.last() == c);
                        assert(!t.contains('\u{3a3}')) by {
                            if t.contains('\u{3a3}') {
                                let j = choose|j: int| 0 <= j < t.len() && t[j] == '\u{3a3}';
                                assert(all.take(i)[j] == '\u{3a3}');
                            }
                        }
                        if is_ascii_chars(t) {
                            assert(is_ascii_chars(all.take(i))) by {
                                assert forall|j: int| 0 <= j < i implies '\0' <= #[trigger] all.take(i)[j] <= '\u{7f}' by {
                                    assert(all.take(i)[j] == t[j]);
                                }
                            }
                            assert(0 <= (c as u32) < 128) by {
                                assert(t[i] == c);
                            }
                            assert(ascii_cased(t, false) =~= ascii_cased(all.take(i), false) + seq![ascii_case(c, false)]);
                        }
                        i = i + 1;
                        assert(all.skip(i) =~= all.skip(i - 1).drop_first());
                    }
                },
            }
        }
        lower
    }

    /// Convert the string to uppercase.
    pub fn to_uppercase(&self) -> (r: Self)
        requires
            self.wf(),
        ensures
            r.wf(),
            r@ == uppercase(self@),
    {
        if let Some(r) = self.ascii_converted(true) {
            return r;
        }
        let s = self.as_str();
        let mut upper = Self::with_capacity(s.len());
        let mut it = s.chars();
        let ghost mut i: int = 0;
        let ghost all = self@;
        assert(all.take(0) =~= Seq::<char>::empty());
        loop
            invariant
                upper.wf(),
                s@ == all,
                all == self@,
                0 <= i <= all.len(),
                it.remaining() == all.skip(i),
                upper@ == upper_each(all.take(i)),
                is_ascii_chars(all.take(i)) ==> upper@ == ascii_cased(all.take(i), true),
            ensures
                upper.wf(),
                upper@ == uppercase(all),
            decreases all.len() - i,
        {
            match it.next() {
                None => {
                    assert(all.take(i) =~= all);
                    break;
                },
                Some(c) => {
                    assert(c == all[i]);
                    let piece = char_uppercase(c);
                    upper.push_str(piece.as_str());
                    proof {
                        let t = all.take(i + 1);
                        assert(t.drop_last() =~= all.take(i));
                        assert(t.last() == c);
                        if is_ascii_chars(t) {
                            assert(is_ascii_chars(all.take(i))) by {
                                assert forall|j: int| 0 <= j < i implies '\0' <= #[trigger] all.take(
                                    i,
                                )[j] <= '\u{7f}' by {
                                    assert(all.take(i)[j] == t[j]);
                                }
                            }
                            assert(0 <= (c as u32) < 128) by {
                                assert(t[i] == c);
                            }
                            assert(ascii_cased(t, true) =~= ascii_cased(all.take(i), true) + seq![
                                ascii_case(c, true),
                            ]);
                        }
                        i = i + 1;
                        assert(all.skip(i) =~= all.skip(i - 1).drop_first());
                    }
                },
            }
        }
        upper
    }
}

/// `s` written `n` times in a row.
pub open spec fn repeat_seq<A>(s: Seq<A>, n: nat) -> Seq<A>
    decreases n,
{
    if n == 0 {
        Seq::empty()
    } else {
        repeat_seq(s, (n - 1) as nat) + s
    }
}

/// `n` copies of `s` are `n` times as long as `s`.
pub proof fn lemma_repeat_len<A>(s: Seq<A>, n: nat)
    ensures
        repeat_seq(s, n).len() == s.len() * n,
    decreases n,
{
    let k = s.len();
    if n == 0 {
        assert(k * n == 0) by (nonlinear_arith)
            requires
                n == 0,
        ;
    } else {
        lemma_repeat_len(s, (n - 1) as nat);
        assert(k * (n - 1) + k == k * n) by (nonlinear_arith);
    }
}

/// The encoding of `n` copies of `s` is `n` copies of its encoding.
proof fn lemma_encode_repeat(s: Seq<char>, n: nat)
    ensures
        encode_utf8(repeat_seq(s, n)) == repeat_seq(encode_utf8(s), n),
    decreases n,
{
    if n == 0 {
        assert(encode_utf8(Seq::<char>::empty()) =~= Seq::<u8>::empty());
    } else {
        lemma_encode_repeat(s, (n - 1) as nat);
        lemma_encode_concat(repeat_seq(s, (n - 1) as nat), s);
    }
}

impl EcoString {
    /// Repeat this string `n` times. The result is inline when `n` is zero,
    /// or when this string is inline and the result takes at most `LIMIT`
    /// bytes.
    pub fn repeat(&self, n: usize) -> (r: Self)
        requires
            self.wf(),
        ensures
            r.wf(),
            r@ == repeat_seq(self@, n as nat),
            r.inline() == (n == 0 || (self.inline() && encode_utf8(self@).len() * n <= LIMIT)),
    {
        if n == 0 {
            return Self::new();
        }
        let bytes = self.as_bytes();
        let prev = bytes.len();
        let fits = self.is_inline() && (prev == 0 || n <= LIMIT / prev);
        proof {
            if prev == 0 {
                assert(prev * n == 0) by (nonlinear_arith)
                    requires
                        prev == 0,
                ;
            } else {
                if n <= LIMIT / prev {
                    assert(prev * n <= LIMIT) by (nonlinear_arith)
                        requires
                            n <= LIMIT / prev,
                            prev > 0,
                    ;
                } else {
                    assert(prev * n > LIMIT) by (nonlinear_arith)
                        requires
                            n > LIMIT / prev,
                            prev > 0,
                    ;
                }
            }
        }
        let mut r = if fits {
            Self::new()
        } else {
            let capacity = if prev == 0 || n <= usize::MAX / prev {
                assert(prev * n <= usize::MAX) by (nonlinear_arith)
                    requires
                        prev == 0 || n <= usize::MAX / prev,
                ;
                prev * n
            } else {
                usize::MAX
            };
            let e = EcoString(Repr::Large(EcoVec::with_capacity(capacity)));
            assert(e.bytes() =~= Seq::<u8>::empty());
            e
        };
        let mut i: usize = 0;
        while i < n
            invariant
                i <= n,
                r.wf(),
                bytes@ == self.bytes(),
                valid_utf8(bytes@),
                prev == bytes@.len(),
                fits ==> prev * n <= LIMIT,
                r.inline() == fits,
                r.bytes() == repeat_seq(bytes@, i as nat),
            decreases n - i,
        {
            proof {
                lemma_repeat_len(bytes@, i as nat);
                if fits {
                    assert(prev * i + prev <= prev * n) by (nonlinear_arith)
                        requires
                            i < n,
                    ;
                }
            }
            r.push_bytes(bytes);
            i += 1;
        }
        proof {
            self.lemma_bytes();
            lemma_encode_repeat(self@, n as nat);
        }
        r
    }
}

} // verus!
