//! The tag-file text format: plain UTF-8 text, one tag per line.
//!
//! Lines split at each newline; a carriage return directly before a
//! newline belongs to the line ending, not to the tag. There is no
//! trimming, no deduplication, no comment syntax and no escaping: an
//! empty line yields an empty-string tag.

use vstd::prelude::*;

verus! {

/// The index of the first occurrence of `c` in `s`, or -1 when `c`
/// does not occur.
pub open spec fn first_index_of(s: Seq<char>, c: char) -> int
    decreases s.len(),
{
    if s.len() == 0 {
        -1
    } else if s[0] == c {
        0
    } else if first_index_of(s.drop_first(), c) < 0 {
        -1
    } else {
        first_index_of(s.drop_first(), c) + 1
    }
}

proof fn lemma_first_index_of_at(s: Seq<char>, c: char, i: int)
    requires
        0 <= i < s.len(),
        s[i] == c,
        forall|j: int| 0 <= j < i ==> s[j] != c,
    ensures
        first_index_of(s, c) == i,
    decreases s.len(),
{
    if i == 0 {
    } else {
        assert(s[0] != c);
        assert(s.drop_first()[i - 1] == c);
        assert(forall|j: int| 0 <= j < i - 1 ==> #[trigger] s.drop_first()[j] == s[j + 1]);
        lemma_first_index_of_at(s.drop_first(), c, i - 1);
    }
}

proof fn lemma_first_index_of_absent(s: Seq<char>, c: char)
    requires
        forall|j: int| 0 <= j < s.len() ==> s[j] != c,
    ensures
        first_index_of(s, c) == -1,
    decreases s.len(),
{
    if s.len() > 0 {
        assert(forall|j: int| 0 <= j < s.len() - 1 ==> #[trigger] s.drop_first()[j] == s[j + 1]);
        lemma_first_index_of_absent(s.drop_first(), c);
    }
}

/// A line with a trailing carriage return removed.
pub open spec fn strip_cr(line: Seq<char>) -> Seq<char> {
    if line.len() > 0 && line.last() == '\r' {
        line.drop_last()
    } else {
        line
    }
}

/// The tags declared by a tag file's text, in file order.
pub open spec fn split_lines(s: Seq<char>) -> Seq<Seq<char>>
    decreases s.len(),
{
    if s.len() == 0 {
        Seq::empty()
    } else if 0 <= first_index_of(s, '\n') < s.len() {
        seq![strip_cr(s.subrange(0, first_index_of(s, '\n')))] + split_lines(
            s.subrange(first_index_of(s, '\n') + 1, s.len() as int),
        )
    } else {
        seq![s]
    }
}

proof fn lemma_split_lines_step(t: Seq<char>, start: int, i: int)
    requires
        0 <= start <= i < t.len(),
        forall|j: int| start <= j < i ==> t[j] != '\n',
        t[i] == '\n',
    ensures
        split_lines(t.subrange(start, t.len() as int)) == seq![
            strip_cr(t.subrange(start, i)),
        ] + split_lines(t.subrange(i + 1, t.len() as int)),
{
    let n = t.len() as int;
    let u = t.subrange(start, n);
    assert(u[i - start] == '\n');
    assert(forall|j: int| 0 <= j < i - start ==> #[trigger] u[j] != '\n') by {
        assert(forall|j: int| 0 <= j < u.len() ==> #[trigger] u[j] == t[j + start]);
    }
    lemma_first_index_of_at(u, '\n', i - start);
    assert(u.subrange(0, i - start) =~= t.subrange(start, i));
    assert(u.subrange(i - start + 1, u.len() as int) =~= t.subrange(i + 1, n));
}

proof fn lemma_split_lines_flat(u: Seq<char>)
    requires
        forall|j: int| 0 <= j < u.len() ==> u[j] != '\n',
    ensures
        u.len() == 0 ==> split_lines(u) == Seq::<Seq<char>>::empty(),
        u.len() > 0 ==> split_lines(u) == seq![u],
{
    if u.len() > 0 {
        lemma_first_index_of_absent(u, '\n');
    }
}

/// Parses a tag file's text: one tag per line, in file order.
pub fn parse_tag_lines(text: &str) -> (tags: Vec<String>)
    ensures
        tags@.map_values(|t: String| t@) == split_lines(text@),
{
    let n = text.unicode_len();
    let mut tags: Vec<String> = Vec::new();
    let mut start: usize = 0;
    let mut i: usize = 0;
    proof {
        assert(text@.subrange(0, n as int) =~= text@);
        assert(tags@.map_values(|t: String| t@) =~= Seq::<Seq<char>>::empty());
    }
    while i < n
        invariant
            start <= i <= n,
            n == text@.len(),
            forall|j: int| start <= j < i ==> text@[j] != '\n',
            tags@.map_values(|t: String| t@) + split_lines(
                text@.subrange(start as int, n as int),
            ) =~= split_lines(text@),
        decreases n - i,
    {
        let c = text.get_char(i);
        if c == '\n' {
            let end = if i > start && text.get_char(i - 1) == '\r' {
                i - 1
            } else {
                i
            };
            let line = text.substring_char(start, end).to_owned();
            proof {
                lemma_split_lines_step(text@, start as int, i as int);
                assert(line@ =~= strip_cr(text@.subrange(start as int, i as int)));
                assert(tags@.push(line).map_values(|t: String| t@) =~= tags@.map_values(
                    |t: String| t@,
                ).push(line@));
            }
            tags.push(line);
            start = i + 1;
        }
        i = i + 1;
    }
    proof {
        lemma_split_lines_flat(text@.subrange(start as int, n as int));
    }
    if start < n {
        let line = text.substring_char(start, n).to_owned();
        proof {
            assert(tags@.push(line).map_values(|t: String| t@) =~= tags@.map_values(
                |t: String| t@,
            ).push(line@));
        }
        tags.push(line);
    }
    proof {
        assert(tags@.map_values(|t: String| t@) =~= split_lines(text@));
    }
    tags
}

} // verus!
