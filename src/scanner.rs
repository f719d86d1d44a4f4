use vstd::prelude::*;
use vstd::utf8::*;

verus! {

broadcast use vstd::utf8::char_is_scalar;

/// True when `p` occurs in `s` starting at position `i`.
pub open spec fn starts_at(s: Seq<char>, i: int, p: Seq<char>) -> bool {
    0 <= i && i + p.len() <= s.len() && s.subrange(i, i + p.len()) == p
}

/// The first position at or after `i` where `d` occurs in `s`, or the end of `s`.
pub open spec fn find_str(s: Seq<char>, i: nat, d: Seq<char>) -> nat
    decreases s.len() - i,
{
    if i >= s.len() {
        s.len()
    } else if starts_at(s, i as int, d) {
        i
    } else {
        find_str(s, i + 1, d)
    }
}

/// The first position at or after `i` that holds one of `ds`, or the end of `s`.
pub open spec fn find_any(s: Seq<char>, i: nat, ds: Seq<char>) -> nat
    decreases s.len() - i,
{
    if i >= s.len() {
        s.len()
    } else if ds.contains(s[i as int]) {
        i
    } else {
        find_any(s, i + 1, ds)
    }
}

/// The first position at or after `i` that does not hold an ASCII space, or the end of `s`.
pub open spec fn skip_spaces(s: Seq<char>, i: nat) -> nat
    decreases s.len() - i,
{
    if i < s.len() && s[i as int] == ' ' {
        skip_spaces(s, i + 1)
    } else {
        i
    }
}

/// The number of bytes that the UTF-8 encoding of `s` takes.
pub open spec fn byte_len(s: Seq<char>) -> nat {
    encode_utf8(s).len()
}

pub proof fn lemma_find_str_bounds(s: Seq<char>, i: nat, d: Seq<char>)
    ensures
        i <= s.len() ==> i <= find_str(s, i, d) <= s.len(),
        i > s.len() ==> find_str(s, i, d) == s.len(),
    decreases s.len() - i,
{
    if i < s.len() && !starts_at(s, i as int, d) {
        lemma_find_str_bounds(s, i + 1, d);
    }
}

pub proof fn lemma_find_any_bounds(s: Seq<char>, i: nat, ds: Seq<char>)
    ensures
        i <= s.len() ==> i <= find_any(s, i, ds) <= s.len(),
        i > s.len() ==> find_any(s, i, ds) == s.len(),
    decreases s.len() - i,
{
    if i < s.len() && !ds.contains(s[i as int]) {
        lemma_find_any_bounds(s, i + 1, ds);
    }
}

pub proof fn lemma_skip_spaces_bounds(s: Seq<char>, i: nat)
    ensures
        i <= skip_spaces(s, i),
        i <= s.len() ==> skip_spaces(s, i) <= s.len(),
    decreases s.len() - i,
{
    if i < s.len() && s[i as int] == ' ' {
        lemma_skip_spaces_bounds(s, i + 1);
    }
}

proof fn lemma_encode_concat(a: Seq<char>, b: Seq<char>)
    ensures
        encode_utf8(a + b) == encode_utf8(a) + encode_utf8(b),
    decreases a.len(),
{
    if a.len() == 0 {
        assert(a + b =~= b);
        assert(encode_utf8(a) + encode_utf8(b) =~= encode_utf8(b));
    } else {
        lemma_encode_concat(a.drop_first(), b);
        assert((a + b).drop_first() =~= a.drop_first() + b);
        assert(encode_utf8(a + b) =~= encode_utf8(a) + encode_utf8(b));
    }
}

proof fn lemma_byte_len_step(s: Seq<char>, i: int)
    requires
        0 <= i < s.len(),
    ensures
        byte_len(s.take(i + 1)) == byte_len(s.take(i)) + encode_scalar(s[i] as u32).len(),
        byte_len(s.take(i + 1)) <= byte_len(s),
{
    let c = seq![s[i]];
    assert(s.take(i + 1) =~= s.take(i) + c);
    lemma_encode_concat(s.take(i), c);
    assert(c.drop_first() =~= Seq::<char>::empty());
    assert(encode_utf8(c) =~= encode_scalar(s[i] as u32) + encode_utf8(Seq::<char>::empty()));
    assert(s =~= s.take(i + 1) + s.skip(i + 1));
    lemma_encode_concat(s.take(i + 1), s.skip(i + 1));
}

/// The number of bytes of the UTF-8 encoding of `c`.
fn utf8_width(c: char) -> (w: usize)
    ensures
        w == encode_scalar(c as u32).len(),
{
    let v = c as u32;
    if v <= 0x7F {
        1
    } else if v <= 0x7FF {
        2
    } else if v <= 0xFFFF {
        3
    } else {
        4
    }
}

/// A cursor over a text that only moves forward.
///
/// Positions in the contracts count characters; `index` reports the
/// cursor as a byte offset into the text.
pub struct Scanner<'a> {
    text: &'a str,
    chars: Vec<char>,
    pos: usize,
    offset: usize,
}

impl<'a> Scanner<'a> {
    /// The characters of the scanned text.
    pub closed spec fn input(&self) -> Seq<char> {
        self.chars@
    }

    /// The cursor, as a character position.
    pub closed spec fn pos(&self) -> nat {
        self.pos as nat
    }

    pub closed spec fn wf(&self) -> bool {
        &&& self.chars@ == self.text@
        &&& self.pos <= self.chars@.len() <= usize::MAX
        &&& self.offset == byte_len(self.chars@.take(self.pos as int))
        &&& byte_len(self.chars@) <= usize::MAX
    }

    pub proof fn lemma_pos_bound(&self)
        requires
            self.wf(),
        ensures
            self.pos() <= self.input().len() <= usize::MAX,
    {
    }

    pub fn new(text: &'a str) -> (r: Self)
        ensures
            r.wf(),
            r.input() == text@,
            r.pos() == 0,
    {
        let bytes = text.as_bytes_vec();
        let n = text.unicode_len();
        let mut chars: Vec<char> = Vec::new();
        let mut i: usize = 0;
        while i < n
            invariant
                n == text@.len(),
                i <= n,
                chars@ == text@.take(i as int),
            decreases n - i,
        {
            chars.push(text.get_char(i));
            i = i + 1;
            assert(chars@ =~= text@.take(i as int));
        }
        assert(chars@ =~= text@);
        assert(chars@.take(0) =~= Seq::<char>::empty());
        let nchars = chars.len();
        let nbytes = bytes.len();
        assert(byte_len(text@) == nbytes);
        Scanner { text, chars, pos: 0, offset: 0 }
    }

    pub fn has_prefix(&self, prefix: &str) -> (r: bool)
        requires
            self.wf(),
        ensures
            r == starts_at(self.input(), self.pos() as int, prefix@),
    {
        let m = prefix.unicode_len();
        if m > self.chars.len() - self.pos {
            return false;
        }
        let mut j: usize = 0;
        while j < m
            invariant
                self.wf(),
                m == prefix@.len(),
                self.pos + m <= self.chars.len(),
                j <= m,
                self.chars@.subrange(self.pos as int, self.pos + j) == prefix@.take(j as int),
            decreases m - j,
        {
            if self.chars[self.pos + j] != prefix.get_char(j) {
                assert(self.chars@.subrange(self.pos as int, self.pos + m)[j as int]
                    != prefix@[j as int]);
                return false;
            }
            j = j + 1;
            assert(self.chars@.subrange(self.pos as int, self.pos + j) =~= prefix@.take(j as int));
        }
        assert(prefix@.take(m as int) =~= prefix@);
        true
    }

    pub fn has_prefix_chr(&self, prefix: char) -> (r: bool)
        requires
            self.wf(),
        ensures
            r == (self.pos() < self.input().len() && self.input()[self.pos() as int] == prefix),
    {
        self.pos < self.chars.len() && self.chars[self.pos] == prefix
    }

    /// Moves the cursor one character on; false, with nothing changed, at the end.
    fn advance(&mut self) -> (r: bool)
        requires
            old(self).wf(),
        ensures
            final(self).wf(),
            final(self).input() == old(self).input(),
            old(self).pos() <= final(self).pos() <= final(self).input().len(),
            r == (old(self).pos() < old(self).input().len()),
            final(self).pos() == if r { old(self).pos() + 1 } else { old(self).pos() },
    {
        if self.pos < self.chars.len() {
            let w = utf8_width(self.chars[self.pos]);
            proof {
                lemma_byte_len_step(self.chars@, self.pos as int);
            }
            self.offset = self.offset + w;
            self.pos = self.pos + 1;
            true
        } else {
            false
        }
    }

    pub fn consume_exact(&mut self, prefix: &str) -> (r: bool)
        requires
            old(self).wf(),
        ensures
            final(self).wf(),
            final(self).input() == old(self).input(),
            old(self).pos() <= final(self).pos() <= final(self).input().len(),
            r == starts_at(old(self).input(), old(self).pos() as int, prefix@),
            final(self).pos() == if r { old(self).pos() + prefix@.len() } else { old(self).pos() },
    {
        if !self.has_prefix(prefix) {
            return false;
        }
        let m = prefix.unicode_len();
        let ghost start = self.pos();
        let mut j: usize = 0;
        while j < m
            invariant
                self.wf(),
                self.input() == old(self).input(),
                m == prefix@.len(),
                start == old(self).pos(),
                start + m <= self.input().len(),
                j <= m,
                self.pos() == start + j,
            decreases m - j,
        {
            self.advance();
            j = j + 1;
        }
        true
    }

    /// Consumes characters up to the first one of `delims`, or to the end.
    pub fn consume_until_any_char(&mut self, delims: &[char]) -> (r: &'a str)
        requires
            old(self).wf(),
        ensures
            final(self).wf(),
            final(self).input() == old(self).input(),
            old(self).pos() <= final(self).pos() <= final(self).input().len(),
            final(self).pos() == find_any(old(self).input(), old(self).pos(), delims@),
            r@ == old(self).input().subrange(old(self).pos() as int, final(self).pos() as int),
    {
        let start = self.pos;
        while self.pos < self.chars.len() && !contains_char(delims, self.chars[self.pos])
            invariant
                self.wf(),
                self.input() == old(self).input(),
                old(self).pos() <= self.pos() <= self.input().len(),
                find_any(self.input(), self.pos(), delims@) == find_any(
                    self.input(),
                    old(self).pos(),
                    delims@,
                ),
            decreases self.input().len() - self.pos(),
        {
            self.advance();
        }
        self.text.substring_char(start, self.pos)
    }

    /// Consumes characters up to the first `delim`, or to the end.
    pub fn consume_until_char(&mut self, delim: char) -> (r: &'a str)
        requires
            old(self).wf(),
        ensures
            final(self).wf(),
            final(self).input() == old(self).input(),
            old(self).pos() <= final(self).pos() <= final(self).input().len(),
            final(self).pos() == find_any(old(self).input(), old(self).pos(), seq![delim]),
            r@ == old(self).input().subrange(old(self).pos() as int, final(self).pos() as int),
    {
        let delims = [delim];
        assert(delims@ =~= seq![delim]);
        self.consume_until_any_char(&delims)
    }

    /// Consumes characters up to the first occurrence of `delim`, or to the end.
    pub fn consume_until_str(&mut self, delim: &str) -> (r: &'a str)
        requires
            old(self).wf(),
        ensures
            final(self).wf(),
            final(self).input() == old(self).input(),
            old(self).pos() <= final(self).pos() <= final(self).input().len(),
            final(self).pos() == find_str(old(self).input(), old(self).pos(), delim@),
            r@ == old(self).input().subrange(old(self).pos() as int, final(self).pos() as int),
    {
        let start = self.pos;
        while self.pos < self.chars.len() && !self.has_prefix(delim)
            invariant
                self.wf(),
                self.input() == old(self).input(),
                old(self).pos() <= self.pos() <= self.input().len(),
                find_str(self.input(), self.pos(), delim@) == find_str(
                    self.input(),
                    old(self).pos(),
                    delim@,
                ),
            decreases self.input().len() - self.pos(),
        {
            self.advance();
        }
        self.text.substring_char(start, self.pos)
    }

    /// Skips ASCII spaces; tabs and line breaks are kept.
    pub fn consume_whitespace(&mut self)
        requires
            old(self).wf(),
        ensures
            final(self).wf(),
            final(self).input() == old(self).input(),
            old(self).pos() <= final(self).pos() <= final(self).input().len(),
            final(self).pos() == skip_spaces(old(self).input(), old(self).pos()),
    {
        while self.has_prefix_chr(' ')
            invariant
                self.wf(),
                self.input() == old(self).input(),
                old(self).pos() <= self.pos() <= self.input().len(),
                skip_spaces(self.input(), self.pos()) == skip_spaces(
                    self.input(),
                    old(self).pos(),
                ),
            decreases self.input().len() - self.pos(),
        {
            self.advance();
        }
    }

    pub fn has_remaining(&self) -> (r: bool)
        requires
            self.wf(),
        ensures
            r == (self.pos() < self.input().len()),
    {
        self.pos < self.chars.len()
    }

    /// The cursor as a byte offset into the text.
    pub fn index(&self) -> (r: usize)
        requires
            self.wf(),
        ensures
            r == byte_len(self.input().take(self.pos() as int)),
    {
        self.offset
    }
}

/// True when `c` is one of `cs`.
fn contains_char(cs: &[char], c: char) -> (r: bool)
    ensures
        r == cs@.contains(c),
{
    let mut i: usize = 0;
    while i < cs.len()
        invariant
            i <= cs@.len(),
            forall|k: int| 0 <= k < i ==> cs@[k] != c,
        decreases cs@.len() - i,
    {
        if cs[i] == c {
            assert(cs@[i as int] == c);
            return true;
        }
        i = i + 1;
    }
    false
}

} // verus!
