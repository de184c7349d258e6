use vstd::prelude::*;

verus! {

/// `String::push` of std appends the character to the end of the string.
pub assume_specification[ String::push ](s: &mut String, c: char)
    ensures
        final(s)@ == old(s)@.push(c),
;

/// The characters of `s`, in order.
pub fn chars_of(s: &str) -> (chars: Vec<char>)
    ensures
        chars@ == s@,
{
    let mut chars: Vec<char> = Vec::new();
    for c in it: s.chars()
        invariant
            chars@ == it.seq().take(it.index()),
            it.seq() == s@,
    {
        chars.push(c);
    }
    chars
}

/// The string made of `chars`, in order.
pub fn string_of(chars: &[char]) -> (s: String)
    ensures
        s@ == chars@,
{
    let mut s = String::new();
    let mut i: usize = 0;
    while i < chars.len()
        invariant
            i <= chars.len(),
            s@ == chars@.take(i as int),
        decreases chars.len() - i,
    {
        s.push(chars[i]);
        i += 1;
        proof {
            assert(chars@.take(i as int) == chars@.take(i - 1).push(chars@[i - 1]));
        }
    }
    s
}

/// The views of a vector of character vectors, in order.
pub open spec fn rows(v: Seq<Vec<char>>) -> Seq<Seq<char>> {
    v.map_values(|r: Vec<char>| r@)
}

/// The views of a vector of strings, in order.
pub open spec fn texts(v: Seq<String>) -> Seq<Seq<char>> {
    v.map_values(|r: String| r@)
}

/// The least index at or after `i` at which `s` holds `c`, or the length of
/// `s` where there is none.
pub open spec fn find_from(s: Seq<char>, c: char, i: int) -> int
    decreases s.len() - i,
{
    if i < 0 || i >= s.len() {
        s.len() as int
    } else if s[i] == c {
        i
    } else {
        find_from(s, c, i + 1)
    }
}

/// `find_from` answers an index from `i` up to the length; below the length
/// it is an index of `c`, and no index before it from `i` on is.
pub proof fn lemma_find_from_bounds(s: Seq<char>, c: char, i: int)
    requires
        0 <= i <= s.len(),
    ensures
        i <= find_from(s, c, i) <= s.len(),
        find_from(s, c, i) < s.len() ==> s[find_from(s, c, i)] == c,
        forall|k: int| i <= k < find_from(s, c, i) ==> s[k] != c,
    decreases s.len() - i,
{
    if i < s.len() && s[i] != c {
        lemma_find_from_bounds(s, c, i + 1);
    }
}

/// Finds the first `c` at or after `start`.
pub fn find_char(s: &[char], c: char, start: usize) -> (at: usize)
    requires
        start <= s.len(),
    ensures
        at == find_from(s@, c, start as int),
        start <= at <= s.len(),
{
    let mut at: usize = start;
    while at < s.len() && s[at] != c
        invariant
            start <= at <= s.len(),
            find_from(s@, c, at as int) == find_from(s@, c, start as int),
        decreases s.len() - at,
    {
        at += 1;
    }
    at
}

/// Copies `s[from..to]`.
pub fn slice_of(s: &[char], from: usize, to: usize) -> (part: Vec<char>)
    requires
        from <= to <= s.len(),
    ensures
        part@ == s@.subrange(from as int, to as int),
{
    let mut part: Vec<char> = Vec::new();
    let mut i: usize = from;
    while i < to
        invariant
            from <= i <= to <= s.len(),
            part@ == s@.subrange(from as int, i as int),
        decreases to - i,
    {
        part.push(s[i]);
        i += 1;
        proof {
            assert(s@.subrange(from as int, i as int) == s@.subrange(from as int, i - 1).push(
                s@[i - 1],
            ));
        }
    }
    part
}

/// Whether `s` begins with `prefix`.
pub fn has_prefix(s: &[char], prefix: &[char]) -> (yes: bool)
    ensures
        yes == prefix@.is_prefix_of(s@),
{
    if prefix.len() > s.len() {
        return false;
    }
    let mut i: usize = 0;
    while i < prefix.len()
        invariant
            i <= prefix.len() <= s.len(),
            forall|k: int| 0 <= k < i ==> s@[k] == prefix@[k],
        decreases prefix.len() - i,
    {
        if s[i] != prefix[i] {
            proof {
                assert(s@.subrange(0, prefix@.len() as int)[i as int] == s@[i as int]);
            }
            return false;
        }
        i += 1;
    }
    proof {
        assert(prefix@ =~= s@.subrange(0, prefix@.len() as int));
    }
    true
}

/// Whether `a` and `b` hold the same characters.
pub fn same_text(a: &[char], b: &[char]) -> (yes: bool)
    ensures
        yes == (a@ == b@),
{
    let yes = a.len() == b.len() && has_prefix(a, b);
    proof {
        if yes {
            assert(a@ =~= b@);
        }
        if a@ == b@ {
            assert(b@ =~= a@.subrange(0, b@.len() as int));
        }
    }
    yes
}

/// A line without the carriage return that ended it, if one did.
pub open spec fn strip_cr(line: Seq<char>) -> Seq<char> {
    if line.len() > 0 && line.last() == '\r' {
        line.drop_last()
    } else {
        line
    }
}

/// The lines of `s` from index `i` on. A line ends at a line feed, or at a
/// carriage return directly before one; the last line needs no ending and,
/// without one, keeps a final carriage return.
pub open spec fn lines_from(s: Seq<char>, i: int) -> Seq<Seq<char>>
    decreases s.len() - i,
    via lines_from_decreases
{
    if i < 0 || i >= s.len() {
        Seq::empty()
    } else {
        let j = find_from(s, '\n', i);
        if j >= s.len() {
            seq![s.subrange(i, s.len() as int)]
        } else {
            seq![strip_cr(s.subrange(i, j))] + lines_from(s, j + 1)
        }
    }
}

#[via_fn]
proof fn lines_from_decreases(s: Seq<char>, i: int) {
    if 0 <= i < s.len() {
        lemma_find_from_bounds(s, '\n', i);
    }
}

/// The lines of `s`.
pub open spec fn lines_of(s: Seq<char>) -> Seq<Seq<char>> {
    lines_from(s, 0)
}

/// Splits `text` into its lines.
pub fn split_lines(text: &[char]) -> (lines: Vec<Vec<char>>)
    ensures
        rows(lines@) == lines_of(text@),
{
    let mut lines: Vec<Vec<char>> = Vec::new();
    let mut i: usize = 0;
    while i < text.len()
        invariant
            i <= text.len(),
            rows(lines@) + lines_from(text@, i as int) == lines_of(text@),
        decreases text.len() - i,
    {
        let j = find_char(text, '\n', i);
        let ghost before = rows(lines@);
        if j >= text.len() {
            let line = slice_of(text, i, j);
            lines.push(line);
            proof {
                assert(rows(lines@) =~= before + lines_from(text@, i as int));
                assert(lines_from(text@, text@.len() as int) =~= Seq::empty());
            }
            i = j;
        } else {
            let end = if j > i && text[j - 1] == '\r' {
                j - 1
            } else {
                j
            };
            let line = slice_of(text, i, end);
            proof {
                assert(line@ =~= strip_cr(text@.subrange(i as int, j as int)));
            }
            lines.push(line);
            proof {
                assert(rows(lines@) + lines_from(text@, j + 1) =~= before + lines_from(
                    text@,
                    i as int,
                ));
            }
            i = j + 1;
        }
    }
    proof {
        assert(rows(lines@) + lines_from(text@, i as int) =~= rows(lines@));
    }
    lines
}

} // verus!
