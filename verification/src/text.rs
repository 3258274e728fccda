//! Offsets, half-open text ranges, and byte-level scanning primitives.

use vstd::prelude::*;

verus! {

/// Byte value of the newline character `\n`.
pub const NEWLINE: u8 = 10;
/// Byte value of the space character.
pub const SPACE: u8 = 32;
/// Byte value of `/`.
pub const SLASH: u8 = 47;
/// Byte value of `*`.
pub const STAR: u8 = 42;
/// Byte value of `!`.
pub const BANG: u8 = 33;
/// Byte value of `;`.
pub const SEMICOLON: u8 = 59;

/// A half-open interval `[start, end)` of byte offsets into the source text.
#[derive(Clone, Copy, PartialEq, Eq, Structural, Debug)]
pub struct TextRange {
    pub start: usize,
    pub end: usize,
}

impl TextRange {
    /// A range is well formed when its start does not lie after its end.
    pub open spec fn is_wf(self) -> bool {
        self.start <= self.end
    }

    /// True iff the range holds no position at all.
    pub fn is_empty(self) -> (r: bool)
        ensures
            r == (self.start == self.end),
    {
        self.start == self.end
    }

    /// True iff `offset` lies inside the range, both boundaries included.
    pub fn contains_offset_nonstrict(self, offset: usize) -> (r: bool)
        ensures
            r == (self.start <= offset && offset <= self.end),
    {
        self.start <= offset && offset <= self.end
    }
}

/// The common part of two ranges, if their closures meet at all.
pub fn intersect(a: TextRange, b: TextRange) -> (r: Option<TextRange>)
    ensures
        match r {
            Some(c) => {
                &&& c.start == if a.start >= b.start { a.start } else { b.start }
                &&& c.end == if a.end <= b.end { a.end } else { b.end }
                &&& c.start <= c.end
            },
            None => (if a.start >= b.start { a.start } else { b.start }) > (if a.end <= b.end { a.end } else { b.end }),
        },
{
    let start: usize = if a.start >= b.start { a.start } else { b.start };
    let end: usize = if a.end <= b.end { a.end } else { b.end };
    if start <= end {
        Some(TextRange { start, end })
    } else {
        None
    }
}

/// True iff some byte in `[from, to)` (clipped to the text) is a newline.
pub open spec fn has_newline(t: Seq<u8>, from: int, to: int) -> bool {
    exists|i: int| from <= i < to && 0 <= i < t.len() && t[i] == NEWLINE
}

/// How many bytes of `[from, to)` are newlines.
pub open spec fn count_newlines(t: Seq<u8>, from: int, to: int) -> int
    decreases to - from,
{
    if from >= to {
        0
    } else {
        count_newlines(t, from, to - 1) + if t[to - 1] == NEWLINE {
            1int
        } else {
            0int
        }
    }
}

/// The first newline at or after `from`, if any.
pub fn find_newline_from(text: &Vec<u8>, from: usize) -> (r: Option<usize>)
    ensures
        match r {
            Some(i) => {
                &&& from <= i < text@.len()
                &&& text@[i as int] == NEWLINE
                &&& forall|j: int| from <= j < i ==> text@[j] != NEWLINE
            },
            None => forall|j: int| from <= j < text@.len() ==> text@[j] != NEWLINE,
        },
{
    let mut i: usize = from;
    while i < text.len()
        invariant
            from <= i,
            forall|j: int| from <= j < i ==> text@[j] != NEWLINE,
        decreases text@.len() - i,
    {
        if text[i] == NEWLINE {
            return Some(i);
        }
        i = i + 1;
    }
    None
}

/// Whether `[from, to)` (clipped to the text) holds a newline.
pub fn has_newline_between(text: &Vec<u8>, from: usize, to: usize) -> (r: bool)
    ensures
        r == has_newline(text@, from as int, to as int),
{
    let hi: usize = if to <= text.len() { to } else { text.len() };
    let mut i: usize = from;
    let mut found: bool = false;
    while i < hi
        invariant
            from <= i,
            hi <= text@.len(),
            hi <= to,
            found ==> has_newline(text@, from as int, to as int),
            !found ==> forall|j: int| from <= j < i ==> text@[j] != NEWLINE,
        decreases hi - i,
    {
        if text[i] == NEWLINE {
            assert(has_newline(text@, from as int, to as int));
            found = true;
        }
        i = i + 1;
    }
    assert(found == has_newline(text@, from as int, to as int)) by {
        if !found && has_newline(text@, from as int, to as int) {
            let w = choose|w: int| from <= w < to && 0 <= w < text@.len() && text@[w] == NEWLINE;
            assert(w < hi);
            assert(text@[w] != NEWLINE);
        }
    };
    found
}

/// Counts the newlines in `[from, to)`.
pub fn newline_count(text: &Vec<u8>, from: usize, to: usize) -> (r: usize)
    requires
        from <= to <= text@.len(),
    ensures
        r == count_newlines(text@, from as int, to as int),
        r <= to - from,
{
    let mut i: usize = from;
    let mut cnt: usize = 0;
    while i < to
        invariant
            from <= i <= to <= text@.len(),
            cnt == count_newlines(text@, from as int, i as int),
            cnt <= i - from,
        decreases to - i,
    {
        if text[i] == NEWLINE {
            cnt = cnt + 1;
        }
        i = i + 1;
    }
    cnt
}

/// How many spaces stand at `from`, before `to` or the first other byte.
pub open spec fn space_run_spec(t: Seq<u8>, from: int, to: int) -> int
    decreases to - from,
{
    if from >= to || t[from] != SPACE {
        0
    } else {
        1 + space_run_spec(t, from + 1, to)
    }
}

/// A run of spaces is determined by its extent and its delimiter.
proof fn lemma_space_run_char(t: Seq<u8>, from: int, to: int, r: int)
    requires
        0 <= from,
        0 <= r,
        from + r <= to <= t.len(),
        forall|j: int| from <= j < from + r ==> t[j] == SPACE,
        from + r < to ==> t[from + r] != SPACE,
    ensures
        space_run_spec(t, from, to) == r,
    decreases r,
{
    if r > 0 {
        assert(t[from] == SPACE);
        lemma_space_run_char(t, from + 1, to, r - 1);
    }
}

/// The length of the run of spaces starting at `from`, stopping at `to`.
pub fn space_run(text: &Vec<u8>, from: usize, to: usize) -> (r: usize)
    requires
        from <= to <= text@.len(),
    ensures
        from + r <= to,
        r == space_run_spec(text@, from as int, to as int),
        forall|j: int| from <= j < from + r ==> text@[j] == SPACE,
        from + r < to ==> text@[(from + r) as int] != SPACE,
{
    let mut i: usize = from;
    while i < to && text[i] == SPACE
        invariant
            from <= i <= to <= text@.len(),
            forall|j: int| from <= j < i ==> text@[j] == SPACE,
        decreases to - i,
    {
        i = i + 1;
    }
    proof {
        lemma_space_run_char(text@, from as int, to as int, i - from);
    }
    i - from
}

/// The last newline inside `[from, to)`, if any.
pub fn last_newline_in(text: &Vec<u8>, from: usize, to: usize) -> (r: Option<usize>)
    requires
        from <= to <= text@.len(),
    ensures
        match r {
            Some(i) => {
                &&& from <= i < to
                &&& text@[i as int] == NEWLINE
                &&& forall|j: int| i < j < to ==> text@[j] != NEWLINE
            },
            None => forall|j: int| from <= j < to ==> text@[j] != NEWLINE,
        },
{
    let mut i: usize = to;
    while i > from
        invariant
            from <= i <= to <= text@.len(),
            forall|j: int| i <= j < to ==> text@[j] != NEWLINE,
        decreases i,
    {
        i = i - 1;
        if text[i] == NEWLINE {
            return Some(i);
        }
    }
    None
}

/// A copy of the bytes in `[from, to)`.
pub fn copy_range(text: &Vec<u8>, from: usize, to: usize) -> (r: Vec<u8>)
    requires
        from <= to <= text@.len(),
    ensures
        r@ == text@.subrange(from as int, to as int),
{
    let mut out: Vec<u8> = Vec::new();
    let mut i: usize = from;
    while i < to
        invariant
            from <= i <= to <= text@.len(),
            out@ == text@.subrange(from as int, i as int),
        decreases to - i,
    {
        out.push(text[i]);
        assert(out@ =~= text@.subrange(from as int, (i + 1) as int));
        i = i + 1;
    }
    out
}

/// Appends the bytes in `[from, to)` of `text` to `dst`.
pub fn append_range(dst: &mut Vec<u8>, text: &Vec<u8>, from: usize, to: usize)
    requires
        from <= to <= text@.len(),
    ensures
        final(dst)@ == old(dst)@ + text@.subrange(from as int, to as int),
{
    let mut i: usize = from;
    while i < to
        invariant
            from <= i <= to <= text@.len(),
            dst@ == old(dst)@ + text@.subrange(from as int, i as int),
        decreases to - i,
    {
        dst.push(text[i]);
        assert(dst@ =~= old(dst)@ + text@.subrange(from as int, (i + 1) as int));
        i = i + 1;
    }
    assert(dst@ =~= old(dst)@ + text@.subrange(from as int, to as int));
}

} // verus!
