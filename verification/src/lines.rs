//! Text that is read line by line.

use crate::text::str_from_utf8;
use vstd::prelude::*;
use vstd::slice::slice_subrange;
use vstd::utf8::*;

verus! {

/// How many bytes stand before the first line feed.
pub open spec fn line_length(s: Seq<u8>) -> nat
    decreases s.len(),
{
    if s.len() == 0 || s[0] == 10 {
        0
    } else {
        1 + line_length(s.skip(1))
    }
}

/// A line without the carriage return before its line feed.
pub open spec fn without_return(line: Seq<u8>) -> Seq<u8> {
    if line.len() > 0 && line.last() == 13 {
        line.drop_last()
    } else {
        line
    }
}

/// The lines of some data: a line feed, with or without a carriage return before
/// it, ends a line, and so does the end of the data, unless nothing stands
/// between it and the last line feed.
pub open spec fn byte_lines(s: Seq<u8>) -> Seq<Seq<u8>>
    decreases s.len(),
{
    let n = line_length(s);
    if s.len() == 0 {
        Seq::empty()
    } else if n >= s.len() {
        seq![s]
    } else {
        seq![without_return(s.take(n as int))] + byte_lines(s.skip((n + 1) as int))
    }
}

/// The text of a line, where it is encoded properly.
pub open spec fn line_text(line: Seq<u8>) -> Option<Seq<char>> {
    if valid_utf8(line) {
        Some(decode_utf8(line))
    } else {
        None
    }
}

/// The texts of the lines of some data.
pub open spec fn text_lines(s: Seq<u8>) -> Seq<Option<Seq<char>>> {
    byte_lines(s).map_values(|line: Seq<u8>| line_text(line))
}

/// The views of some texts.
pub open spec fn line_views(lines: Seq<Option<&str>>) -> Seq<Option<Seq<char>>> {
    lines.map_values(
        |line: Option<&str>|
            match line {
                Some(s) => Some(s@),
                None => None,
            },
    )
}

fn find_line_feed(s: &[u8], from: usize) -> (n: usize)
    requires
        from <= s@.len(),
    ensures
        n == from + line_length(s@.skip(from as int)),
        n <= s@.len(),
        n < s@.len() ==> s@[n as int] == 10,
{
    let len = s.len();
    let mut i: usize = from;
    while i < len && s[i] != 10
        invariant
            len == s@.len(),
            from <= i <= len,
            line_length(s@.skip(from as int)) == i - from + line_length(s@.skip(i as int)),
        decreases len - i,
    {
        assert(s@.skip(i as int).skip(1) =~= s@.skip(i + 1));
        i = i + 1;
    }
    i
}

/// The lines of some data; of those that are not encoded properly, no text.
pub fn lines_of<'a>(data: &'a [u8]) -> (r: Vec<Option<&'a str>>)
    ensures
        line_views(r@) == text_lines(data@),
{
    let len = data.len();
    let mut r: Vec<Option<&'a str>> = Vec::new();
    let mut from: usize = 0;
    proof {
        assert(data@.skip(0) =~= data@);
        assert(line_views(r@) + text_lines(data@) =~= text_lines(data@));
    }
    while from < len
        invariant
            len == data@.len(),
            from <= len,
            line_views(r@) + text_lines(data@.skip(from as int)) == text_lines(data@),
        decreases len - from,
    {
        let ghost left = data@.skip(from as int);
        let ghost before = line_views(r@);
        let n = find_line_feed(data, from);
        let end = if n < len && n > from && data[n - 1] == 13 {
            n - 1
        } else {
            n
        };
        let line = slice_subrange(data, from, end);
        let text = str_from_utf8(line);
        r.push(text);
        let ghost texts = line_views(r@);
        proof {
            let m = line_length(left);
            assert(texts =~= before.push(line_text(line@)));
            if n < len {
                assert(left.take(m as int).len() == n - from);
                if n > from {
                    assert(left.take(m as int).last() == data@[n - 1]);
                }
                assert(line@ =~= without_return(left.take(m as int)));
                assert(left.skip((m + 1) as int) =~= data@.skip(n + 1));
                assert(text_lines(left) =~= seq![line_text(line@)] + text_lines(
                    data@.skip(n + 1),
                ));
                assert(before.push(line_text(line@)) + text_lines(data@.skip(n + 1)) =~= before
                    + text_lines(left));
            } else {
                assert(line@ =~= left);
                assert(text_lines(left) =~= seq![line_text(line@)]);
                assert(data@.skip(len as int) =~= Seq::<u8>::empty());
                assert(text_lines(data@.skip(len as int)) =~= Seq::<Option<Seq<char>>>::empty());
                assert(before.push(line_text(line@)) =~= before + text_lines(left));
            }
        }
        from = if n < len {
            n + 1
        } else {
            len
        };
    }
    proof {
        assert(data@.skip(len as int) =~= Seq::<u8>::empty());
        assert(text_lines(data@.skip(len as int)) =~= Seq::<Option<Seq<char>>>::empty());
        assert(line_views(r@) =~= text_lines(data@));
    }
    r
}

proof fn lemma_line_length(line: Seq<u8>, tail: Seq<u8>)
    requires
        !line.contains(10),
        tail.len() > 0 ==> tail[0] == 10,
    ensures
        line_length(line + tail) == line.len(),
    decreases line.len(),
{
    let s = line + tail;
    if line.len() == 0 {
        assert(s =~= tail);
    } else {
        let more = line.skip(1);
        assert(s[0] == line[0]);
        assert(line.contains(line[0]));
        assert(s.skip(1) =~= more + tail);
        assert(!more.contains(10)) by {
            if more.contains(10) {
                let i = choose|i: int| 0 <= i < more.len() && more[i] == 10;
                assert(line[i + 1] == 10);
            }
        }
        lemma_line_length(more, tail);
    }
}

/// A line feed ends a line, with or without a carriage return before it, and the
/// lines behind it follow. What stands behind the last line feed is a line too,
/// as it is, unless it is empty.
pub proof fn lemma_line_by_line(line: Seq<u8>, rest: Seq<u8>)
    requires
        !line.contains(10),
    ensures
        line.len() == 0 || line.last() != 13 ==> byte_lines(line + seq![10u8] + rest) == seq![line]
            + byte_lines(rest),
        byte_lines(line + seq![13u8, 10u8] + rest) == seq![line] + byte_lines(rest),
        line.len() > 0 ==> byte_lines(line) == seq![line],
        byte_lines(Seq::empty()) == Seq::<Seq<u8>>::empty(),
{
    let n = line.len();
    let s = line + seq![10u8] + rest;
    assert(s =~= line + (seq![10u8] + rest));
    lemma_line_length(line, seq![10u8] + rest);
    assert(s.take(n as int) =~= line);
    assert(s.skip((n + 1) as int) =~= rest);
    let longer = line.push(13);
    let t = line + seq![13u8, 10u8] + rest;
    assert(t =~= longer + (seq![10u8] + rest));
    assert(!longer.contains(10)) by {
        if longer.contains(10) {
            let i = choose|i: int| 0 <= i < longer.len() && longer[i] == 10;
            assert(line[i] == 10);
        }
    }
    lemma_line_length(longer, seq![10u8] + rest);
    assert(t.take((n + 1) as int) =~= longer);
    assert(longer.drop_last() =~= line);
    assert(t.skip((n + 2) as int) =~= rest);
    lemma_line_length(line, Seq::empty());
    assert(line + Seq::<u8>::empty() =~= line);
}

/// A line is text where it is encoded properly, and no text otherwise.
pub proof fn lemma_text_of_line(line: Seq<u8>, text: Seq<char>)
    ensures
        line_text(encode_utf8(text)) == Some(text),
        line_text(line) is Some <==> valid_utf8(line),
{
    encode_utf8_valid_utf8(text);
    encode_utf8_decode_utf8(text);
}

} // verus!
