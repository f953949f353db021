//! Lines, fields and numbers in the bytes of a text file.
//!
//! A line ends before a line feed or at the end of the text. The fields of a
//! line are its runs of bytes between blanks. A number is a field of decimal
//! digits whose value fits the type that is asked for.

use vstd::prelude::*;
use vstd::slice::slice_subrange;

verus! {

/// Whether `b` separates fields: a space, or one of the control characters
/// from the tab to the carriage return.
pub open spec fn is_blank(b: u8) -> bool {
    b == 32 || (9 <= b && b <= 13)
}

/// Whether `b` is a decimal digit.
pub open spec fn is_digit(b: u8) -> bool {
    48 <= b && b <= 57
}

/// Where the line that holds position `i` ends: at the first line feed from
/// `i` on, or at the end of the text.
pub open spec fn line_end(s: Seq<u8>, i: int) -> int
    decreases s.len() - i,
{
    if i >= s.len() {
        s.len() as int
    } else if s[i] == 10 {
        i
    } else {
        line_end(s, i + 1)
    }
}

/// Where line `k` starts, counting from zero.
pub open spec fn line_start(s: Seq<u8>, k: nat) -> int
    decreases k,
{
    if k == 0 {
        0
    } else {
        line_end(s, line_start(s, (k - 1) as nat)) + 1
    }
}

/// Whether the text has a line `k`. A text that ends in a line feed has no
/// line after it.
pub open spec fn has_line(s: Seq<u8>, k: nat) -> bool {
    line_start(s, k) < s.len()
}

/// The bytes of line `k`, without its line feed.
pub open spec fn line(s: Seq<u8>, k: nat) -> Seq<u8> {
    s.subrange(line_start(s, k), line_end(s, line_start(s, k)))
}

/// The first position from `i` on that holds no blank, or the length.
pub open spec fn blanks_end(l: Seq<u8>, i: int) -> int
    decreases l.len() - i,
{
    if i >= l.len() {
        l.len() as int
    } else if !is_blank(l[i]) {
        i
    } else {
        blanks_end(l, i + 1)
    }
}

/// The first position from `i` on that holds a blank, or the length.
pub open spec fn word_end(l: Seq<u8>, i: int) -> int
    decreases l.len() - i,
{
    if i >= l.len() {
        l.len() as int
    } else if is_blank(l[i]) {
        i
    } else {
        word_end(l, i + 1)
    }
}

/// Where field `k` of the line starts, counting from zero; the length where
/// the line has no such field.
pub open spec fn field_start(l: Seq<u8>, k: nat) -> int
    decreases k,
{
    if k == 0 {
        blanks_end(l, 0)
    } else {
        blanks_end(l, word_end(l, field_start(l, (k - 1) as nat)))
    }
}

/// Whether the line has a field `k`.
pub open spec fn has_field(l: Seq<u8>, k: nat) -> bool {
    field_start(l, k) < l.len()
}

/// The bytes of field `k`.
pub open spec fn field(l: Seq<u8>, k: nat) -> Seq<u8> {
    l.subrange(field_start(l, k), word_end(l, field_start(l, k)))
}

/// The value of a run of decimal digits.
pub open spec fn digits_value(t: Seq<u8>) -> nat
    decreases t.len(),
{
    if t.len() == 0 {
        0
    } else {
        digits_value(t.drop_last()) * 10 + (t.last() - 48) as nat
    }
}

/// Whether `t` holds decimal digits only.
pub open spec fn all_digits(t: Seq<u8>) -> bool {
    forall|i: int| 0 <= i < t.len() ==> is_digit(#[trigger] t[i])
}

/// The number that `t` spells: at least one digit, digits only, and a value
/// of at most `u32::MAX`.
pub open spec fn number(t: Seq<u8>) -> Option<u32> {
    if t.len() > 0 && all_digits(t) && digits_value(t) <= u32::MAX {
        Some(digits_value(t) as u32)
    } else {
        None
    }
}

/// The signed number that `t` spells: a number of at most `i32::MAX`, or a
/// minus sign before a number of at most `i32::MAX + 1`.
pub open spec fn signed_number(t: Seq<u8>) -> Option<i32> {
    if t.len() > 0 && t[0] == 45 {
        match number(t.drop_first()) {
            Some(v) => if v <= 0x8000_0000 {
                Some((-(v as int)) as i32)
            } else {
                None
            },
            None => None,
        }
    } else {
        match number(t) {
            Some(v) => if v <= i32::MAX {
                Some(v as i32)
            } else {
                None
            },
            None => None,
        }
    }
}

/// The number in field `k` of the line, if the line has that field and it
/// spells one.
pub open spec fn number_at(l: Seq<u8>, k: nat) -> Option<u32> {
    if has_field(l, k) {
        number(field(l, k))
    } else {
        None
    }
}

/// The signed number in field `k` of the line.
pub open spec fn signed_number_at(l: Seq<u8>, k: nat) -> Option<i32> {
    if has_field(l, k) {
        signed_number(field(l, k))
    } else {
        None
    }
}

pub proof fn lemma_line_end_bounds(s: Seq<u8>, i: int)
    requires
        0 <= i,
    ensures
        i <= line_end(s, i) || s.len() < i,
        line_end(s, i) <= s.len(),
    decreases s.len() - i,
{
    if i < s.len() && s[i] != 10 {
        lemma_line_end_bounds(s, i + 1);
    }
}

pub proof fn lemma_blanks_end_bounds(l: Seq<u8>, i: int)
    requires
        0 <= i <= l.len(),
    ensures
        i <= blanks_end(l, i) <= l.len(),
    decreases l.len() - i,
{
    if i < l.len() && is_blank(l[i]) {
        lemma_blanks_end_bounds(l, i + 1);
    }
}

pub proof fn lemma_word_end_bounds(l: Seq<u8>, i: int)
    requires
        0 <= i <= l.len(),
    ensures
        i <= word_end(l, i) <= l.len(),
    decreases l.len() - i,
{
    if i < l.len() && !is_blank(l[i]) {
        lemma_word_end_bounds(l, i + 1);
    }
}

pub proof fn lemma_field_start_bounds(l: Seq<u8>, k: nat)
    ensures
        0 <= field_start(l, k) <= l.len(),
    decreases k,
{
    if k == 0 {
        lemma_blanks_end_bounds(l, 0);
    } else {
        lemma_field_start_bounds(l, (k - 1) as nat);
        lemma_word_end_bounds(l, field_start(l, (k - 1) as nat));
        lemma_blanks_end_bounds(l, word_end(l, field_start(l, (k - 1) as nat)));
    }
}

/// Where the line that holds `from` ends.
pub fn find_line_end(text: &[u8], from: usize) -> (end: usize)
    requires
        from <= text@.len(),
    ensures
        end == line_end(text@, from as int),
        from <= end <= text@.len(),
{
    let mut i = from;
    while i < text.len() && text[i] != 10
        invariant
            from <= i <= text@.len(),
            line_end(text@, from as int) == line_end(text@, i as int),
        decreases text@.len() - i,
    {
        i += 1;
    }
    i
}

/// The first position from `from` on that holds no blank.
pub fn skip_blanks(l: &[u8], from: usize) -> (end: usize)
    requires
        from <= l@.len(),
    ensures
        end == blanks_end(l@, from as int),
        from <= end <= l@.len(),
{
    let mut i = from;
    while i < l.len() && (l[i] == 32 || (9 <= l[i] && l[i] <= 13))
        invariant
            from <= i <= l@.len(),
            blanks_end(l@, from as int) == blanks_end(l@, i as int),
        decreases l@.len() - i,
    {
        i += 1;
    }
    i
}

/// The first position from `from` on that holds a blank.
pub fn find_word_end(l: &[u8], from: usize) -> (end: usize)
    requires
        from <= l@.len(),
    ensures
        end == word_end(l@, from as int),
        from <= end <= l@.len(),
{
    let mut i = from;
    while i < l.len() && !(l[i] == 32 || (9 <= l[i] && l[i] <= 13))
        invariant
            from <= i <= l@.len(),
            word_end(l@, from as int) == word_end(l@, i as int),
        decreases l@.len() - i,
    {
        i += 1;
    }
    i
}

/// Where field `k` of the line starts.
pub fn find_field(l: &[u8], k: usize) -> (start: usize)
    ensures
        start == field_start(l@, k as nat),
        start <= l@.len(),
{
    let mut start = skip_blanks(l, 0);
    let mut i: usize = 0;
    while i < k
        invariant
            0 <= i <= k,
            start == field_start(l@, i as nat),
            start <= l@.len(),
        decreases k - i,
    {
        let end = find_word_end(l, start);
        start = skip_blanks(l, end);
        i += 1;
    }
    start
}

/// The value of a run of digits is at least the value of every run that it
/// starts with.
pub proof fn lemma_digits_grow(t: Seq<u8>, n: int)
    requires
        0 <= n <= t.len(),
        all_digits(t),
    ensures
        digits_value(t.take(n)) <= digits_value(t),
    decreases t.len() - n,
{
    if n < t.len() {
        lemma_digits_grow(t, n + 1);
        assert(t.take(n + 1).drop_last() =~= t.take(n));
        assert(is_digit(t[n]));
        assert(t.take(n + 1).last() == t[n]);
    } else {
        assert(t.take(n) =~= t);
    }
}

/// The number that the bytes of `t` spell.
pub fn read_number(t: &[u8]) -> (value: Option<u32>)
    ensures
        value == number(t@),
{
    if t.len() == 0 {
        return None;
    }
    let mut value: u64 = 0;
    let mut i: usize = 0;
    assert(t@.take(0) =~= Seq::<u8>::empty());
    while i < t.len()
        invariant
            0 <= i <= t@.len(),
            all_digits(t@.take(i as int)),
            value == digits_value(t@.take(i as int)),
            value <= u32::MAX,
        decreases t@.len() - i,
    {
        let b = t[i];
        if b < 48 || b > 57 {
            assert(!is_digit(t@[i as int]));
            return None;
        }
        proof {
            let next = t@.take(i + 1);
            assert(next.drop_last() =~= t@.take(i as int));
            assert(next.last() == b);
            assert forall|j: int| 0 <= j < next.len() implies is_digit(#[trigger] next[j]) by {
                if j < i {
                    assert(next[j] == t@.take(i as int)[j]);
                }
            }
        }
        value = value * 10 + (b - 48) as u64;
        if value > u32::MAX as u64 {
            proof {
                if all_digits(t@) {
                    lemma_digits_grow(t@, i + 1);
                }
            }
            return None;
        }
        i += 1;
    }
    assert(t@.take(i as int) =~= t@);
    Some(value as u32)
}

/// The signed number that the bytes of `t` spell.
pub fn read_signed_number(t: &[u8]) -> (value: Option<i32>)
    ensures
        value == signed_number(t@),
{
    if t.len() > 0 && t[0] == 45 {
        let rest = slice_subrange(t, 1, t.len());
        assert(rest@ =~= t@.drop_first());
        match read_number(rest) {
            Some(v) => if v <= 0x8000_0000 {
                Some((-(v as i64)) as i32)
            } else {
                None
            },
            None => None,
        }
    } else {
        match read_number(t) {
            Some(v) => if v <= i32::MAX as u32 {
                Some(v as i32)
            } else {
                None
            },
            None => None,
        }
    }
}

/// The number in field `k` of the line.
pub fn read_number_at(l: &[u8], k: usize) -> (value: Option<u32>)
    ensures
        value == number_at(l@, k as nat),
{
    let start = find_field(l, k);
    if start >= l.len() {
        return None;
    }
    let end = find_word_end(l, start);
    read_number(slice_subrange(l, start, end))
}

/// The signed number in field `k` of the line.
pub fn read_signed_number_at(l: &[u8], k: usize) -> (value: Option<i32>)
    ensures
        value == signed_number_at(l@, k as nat),
{
    let start = find_field(l, k);
    if start >= l.len() {
        return None;
    }
    let end = find_word_end(l, start);
    read_signed_number(slice_subrange(l, start, end))
}

/// Whether the line has a field `k`.
pub fn line_has_field(l: &[u8], k: usize) -> (has: bool)
    ensures
        has == has_field(l@, k as nat),
{
    find_field(l, k) < l.len()
}

/// A reader that hands out the lines of a text one after the other.
pub struct Lines<'a> {
    text: &'a [u8],
    position: usize,
    count: usize,
}

impl<'a> Lines<'a> {
    /// The text that is read.
    pub closed spec fn text(&self) -> Seq<u8> {
        self.text@
    }

    /// The number of lines handed out so far.
    pub closed spec fn count(&self) -> nat {
        self.count as nat
    }

    /// The reader stands where the next line starts, or at the end of the
    /// text if there is none.
    pub closed spec fn wf(&self) -> bool {
        &&& self.position <= self.text@.len()
        &&& has_line(self.text@, self.count as nat) ==> self.position == line_start(
            self.text@,
            self.count as nat,
        )
        &&& !has_line(self.text@, self.count as nat) ==> self.position == self.text@.len()
        &&& self.count <= self.text@.len()
    }

    pub fn new(text: &'a [u8]) -> (lines: Self)
        ensures
            lines.wf(),
            lines.text() == text@,
            lines.count() == 0,
    {
        Lines { text, position: 0, count: 0 }
    }

    /// The number of lines handed out so far.
    pub fn line_number(&self) -> (n: usize)
        ensures
            n == self.count(),
    {
        self.count
    }

    /// The next line, if the text has one.
    pub fn next_line(&mut self) -> (next: Option<&'a [u8]>)
        requires
            old(self).wf(),
        ensures
            final(self).wf(),
            final(self).text() == old(self).text(),
            match next {
                Some(l) => has_line(old(self).text(), old(self).count()) && l@ == line(
                    old(self).text(),
                    old(self).count(),
                ) && final(self).count() == old(self).count() + 1,
                None => !has_line(old(self).text(), old(self).count()) && final(self).count()
                    == old(self).count(),
            },
    {
        if self.position >= self.text.len() {
            return None;
        }
        let start = self.position;
        let end = find_line_end(self.text, start);
        let found = slice_subrange(self.text, start, end);
        proof {
            let s = self.text@;
            let k = self.count as nat;
            assert(line_start(s, k + 1) == end + 1);
            lemma_line_start_grows(s, k);
            assert(self.count < s.len());
            if end + 1 < s.len() {
                assert(has_line(s, k + 1));
            } else {
                assert(!has_line(s, k + 1));
            }
        }
        self.position = if end < self.text.len() {
            end + 1
        } else {
            end
        };
        self.count = self.count + 1;
        Some(found)
    }
}

/// A line that the text has starts no earlier than at the position of its
/// number.
pub proof fn lemma_line_start_grows(s: Seq<u8>, k: nat)
    requires
        has_line(s, k),
    ensures
        line_start(s, k) >= k,
    decreases k,
{
    if k > 0 {
        let before = line_start(s, (k - 1) as nat);
        if before >= s.len() {
            assert(line_end(s, before) == s.len());
        } else {
            lemma_line_start_bounds(s, (k - 1) as nat);
            lemma_line_start_grows(s, (k - 1) as nat);
            lemma_line_end_bounds(s, before);
        }
    }
}

/// No line starts before the text does.
pub proof fn lemma_line_start_bounds(s: Seq<u8>, k: nat)
    ensures
        0 <= line_start(s, k),
    decreases k,
{
    if k > 0 {
        lemma_line_start_bounds(s, (k - 1) as nat);
        lemma_line_end_bounds(s, line_start(s, (k - 1) as nat));
    }
}

} // verus!
