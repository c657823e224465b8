//! The shared character cursor: a forward-only, codepoint-indexed reader over
//! an immutable input string, used identically by the HTML and CSS parsers.
//!
//! The cursor's position counts characters (not bytes), so every operation is
//! multi-byte-safe by construction. `scan_end` is the specification of
//! predicate-based consumption: the exact position where a maximal run of
//! matching characters ends.

use vstd::prelude::*;
use vstd::string::StrSliceExecFns;
use vstd::string::StringExecFns;

verus! {

/// The position where the maximal run of characters satisfying `p`,
/// starting at `i`, ends: the least `j >= i` with `j == s.len()` or `!p(s[j])`.
pub open spec fn scan_end(s: Seq<char>, i: int, p: spec_fn(char) -> bool) -> int
    decreases s.len() - i
        when 0 <= i <= s.len()
{
    if i >= s.len() || !p(s[i]) {
        i
    } else {
        scan_end(s, i + 1, p)
    }
}

/// `scan_end` stays within bounds, every character it passes satisfies `p`,
/// and the character it stops on (if any) does not.
pub proof fn lemma_scan_end(s: Seq<char>, i: int, p: spec_fn(char) -> bool)
    requires
        0 <= i <= s.len(),
    ensures
        i <= scan_end(s, i, p) <= s.len(),
        forall|k: int| i <= k < scan_end(s, i, p) ==> p(#[trigger] s[k]),
        scan_end(s, i, p) < s.len() ==> !p(s[scan_end(s, i, p)]),
    decreases s.len() - i,
{
    if i < s.len() && p(s[i]) {
        lemma_scan_end(s, i + 1, p);
    }
}

/// The end of a maximal run is determined by its two boundary facts: if all
/// of `s[i..j]` satisfies `p` and `j` sits at end-of-input or on a failing
/// character, then `j` is exactly `scan_end(s, i, p)`.
pub proof fn lemma_scan_end_is(s: Seq<char>, i: int, j: int, p: spec_fn(char) -> bool)
    requires
        0 <= i <= j <= s.len(),
        forall|k: int| i <= k < j ==> p(#[trigger] s[k]),
        j == s.len() || !p(s[j]),
    ensures
        scan_end(s, i, p) == j,
    decreases j - i,
{
    if i < j {
        lemma_scan_end_is(s, i + 1, j, p);
    }
}

/// The remaining input at `i` starts with the literal `pat`.
pub open spec fn starts_with_at(s: Seq<char>, i: int, pat: Seq<char>) -> bool {
    i + pat.len() <= s.len() && s.subrange(i, i + pat.len()) == pat
}

/// Positional reader over an immutable input string. `pos` counts characters
/// and only ever moves forward; `chars` caches the character length of the
/// input.
pub struct Cursor {
    input: String,
    pos: usize,
    chars: usize,
}

impl Cursor {
    /// The input as a sequence of characters; immutable for the cursor's life.
    pub closed spec fn text(self) -> Seq<char> {
        self.input@
    }

    /// The current position, as a character offset into `text()`.
    pub closed spec fn position(self) -> int {
        self.pos as int
    }

    /// Well-formedness: the cached length is right and the position sits
    /// between the start and end-of-input (inclusive).
    pub closed spec fn wf(self) -> bool {
        self.chars == self.input@.len() && self.pos <= self.chars
    }

    /// A well-formed cursor's position sits between the start and
    /// end-of-input.
    pub proof fn lemma_wf_bounds(self)
        requires
            self.wf(),
        ensures
            0 <= self.position() <= self.text().len(),
    {
    }

    /// Seed a cursor at the start of the given source text.
    pub fn new(source: &str) -> (c: Cursor)
        ensures
            c.wf(),
            c.text() == source@,
            c.position() == 0,
    {
        let chars = source.unicode_len();
        Cursor { input: String::from_str(source), pos: 0, chars }
    }

    /// True iff all input is consumed.
    pub fn eof(&self) -> (r: bool)
        requires
            self.wf(),
        ensures
            r == (self.position() >= self.text().len()),
    {
        self.pos >= self.chars
    }

    /// The character at the current position, which is not consumed.
    pub fn next_char(&self) -> (c: char)
        requires
            self.wf(),
            self.position() < self.text().len(),
        ensures
            c == self.text()[self.position()],
    {
        self.input.as_str().get_char(self.pos)
    }

    /// True iff the remaining input begins with the literal `s`.
    pub fn starts_with(&self, s: &str) -> (r: bool)
        requires
            self.wf(),
        ensures
            r == starts_with_at(self.text(), self.position(), s@),
    {
        let n = s.unicode_len();
        if n > self.chars - self.pos {
            return false;
        }
        let mut i: usize = 0;
        while i < n
            invariant
                self.wf(),
                i <= n,
                n == s@.len(),
                self.pos + n <= self.chars,
                forall|k: int| 0 <= k < i ==> self.text()[self.position() + k] == s@[k],
            decreases n - i,
        {
            if self.input.as_str().get_char(self.pos + i) != s.get_char(i) {
                proof {
                    assert(self.text().subrange(
                        self.position(),
                        self.position() + s@.len(),
                    )[i as int] == self.text()[self.position() + i]);
                }
                return false;
            }
            i = i + 1;
        }
        proof {
            assert(self.text().subrange(self.position(), self.position() + s@.len()) =~= s@);
        }
        true
    }

    /// Return the current character and advance past it.
    pub fn consume_char(&mut self) -> (c: char)
        requires
            old(self).wf(),
            old(self).position() < old(self).text().len(),
        ensures
            final(self).wf(),
            final(self).text() == old(self).text(),
            final(self).position() == old(self).position() + 1,
            c == old(self).text()[old(self).position()],
    {
        let c = self.input.as_str().get_char(self.pos);
        self.pos = self.pos + 1;
        c
    }

    /// Consume the maximal run of characters satisfying `filter` and return
    /// it as a string; the cursor is left on the first failing character or
    /// at end-of-input. `p` is the specification the filter implements.
    pub fn consume_until<F: Fn(char) -> bool>(
        &mut self,
        filter: F,
        Ghost(p): Ghost<spec_fn(char) -> bool>,
    ) -> (r: String)
        requires
            old(self).wf(),
            forall|c: char| #[trigger] filter.requires((c,)),
            forall|c: char, b: bool| filter.ensures((c,), b) ==> b == p(c),
        ensures
            final(self).wf(),
            final(self).text() == old(self).text(),
            final(self).position() == scan_end(old(self).text(), old(self).position(), p),
            r@ == old(self).text().subrange(old(self).position(), final(self).position()),
    {
        let start: usize = self.pos;
        loop
            invariant
                self.wf(),
                self.text() == old(self).text(),
                start <= self.pos <= self.chars,
                forall|k: int| start <= k < self.pos ==> p(#[trigger] self.text()[k]),
                forall|c: char| #[trigger] filter.requires((c,)),
                forall|c: char, b: bool| filter.ensures((c,), b) ==> b == p(c),
            ensures
                self.wf(),
                self.text() == old(self).text(),
                start <= self.pos <= self.chars,
                forall|k: int| start <= k < self.pos ==> p(#[trigger] self.text()[k]),
                self.pos == self.chars || !p(self.text()[self.pos as int]),
            decreases self.chars - self.pos,
        {
            if self.pos >= self.chars {
                break;
            }
            let c = self.input.as_str().get_char(self.pos);
            if !filter(c) {
                break;
            }
            self.pos = self.pos + 1;
        }
        proof {
            lemma_scan_end_is(self.text(), start as int, self.pos as int, p);
        }
        let piece = self.input.as_str().substring_char(start, self.pos);
        String::from_str(piece)
    }

    /// Consume and discard the maximal run of whitespace characters.
    pub fn consume_whitespace(&mut self)
        requires
            old(self).wf(),
        ensures
            final(self).wf(),
            final(self).text() == old(self).text(),
            final(self).position() == ws_end(old(self).text(), old(self).position()),
    {
        let filter = |c: char| -> (b: bool)
            ensures
                b == is_ws_char(c),
            { ws_char(c) };
        let r = self.consume_until(filter, Ghost(|c: char| is_ws_char(c)));
    }
}

/// Character-by-character string equality; `==` on string slices carries no
/// specification, this does.
pub fn str_eq(a: &str, b: &str) -> (r: bool)
    ensures
        r == (a@ == b@),
{
    let n = a.unicode_len();
    if n != b.unicode_len() {
        return false;
    }
    let mut i: usize = 0;
    while i < n
        invariant
            n == a@.len(),
            n == b@.len(),
            i <= n,
            forall|k: int| 0 <= k < i ==> a@[k] == b@[k],
        decreases n - i,
    {
        if a.get_char(i) != b.get_char(i) {
            return false;
        }
        i = i + 1;
    }
    proof {
        assert(a@ =~= b@);
    }
    true
}

/// The Unicode `White_Space` property, written out codepoint by codepoint.
pub open spec fn is_ws_char(c: char) -> bool {
    let u = c as u32;
    u == 0x09 || u == 0x0A || u == 0x0B || u == 0x0C || u == 0x0D || u == 0x20 || u == 0x85
        || u == 0xA0 || u == 0x1680 || (0x2000 <= u && u <= 0x200A) || u == 0x2028 || u == 0x2029
        || u == 0x202F || u == 0x205F || u == 0x3000
}

/// Where whitespace starting at `i` ends.
pub open spec fn ws_end(s: Seq<char>, i: int) -> int {
    scan_end(s, i, |c: char| is_ws_char(c))
}

/// Bounds and boundary facts for `ws_end`.
pub proof fn lemma_ws_end(s: Seq<char>, i: int)
    requires
        0 <= i <= s.len(),
    ensures
        i <= ws_end(s, i) <= s.len(),
        forall|k: int| i <= k < ws_end(s, i) ==> is_ws_char(#[trigger] s[k]),
        ws_end(s, i) < s.len() ==> !is_ws_char(s[ws_end(s, i)]),
{
    lemma_scan_end(s, i, |c: char| is_ws_char(c));
}

/// Executable test for `is_ws_char`.
pub fn ws_char(c: char) -> (r: bool)
    ensures
        r == is_ws_char(c),
{
    let u = c as u32;
    u == 0x09 || u == 0x0A || u == 0x0B || u == 0x0C || u == 0x0D || u == 0x20 || u == 0x85
        || u == 0xA0 || u == 0x1680 || (0x2000 <= u && u <= 0x200A) || u == 0x2028 || u == 0x2029
        || u == 0x202F || u == 0x205F || u == 0x3000
}

} // verus!
