//! Locating documentation blocks in raw source text and normalizing their
//! content lines.

use vstd::prelude::*;
use crate::scan::{
    occurs_at, has_occurrence, find_at, find_char, find_sub, find_char_pos,
    lemma_find_char_spec, lemma_first_occurrence_find, lemma_no_occurrence_find,
};

verus! {

/// Why no block could be located in a stretch of text.
#[derive(Clone, Copy, Debug, PartialEq, Eq, Structural)]
pub enum LocateError {
    /// The start delimiter does not occur: there is no further block.
    BlockNotFound,
    /// The start delimiter occurs, but the end delimiter never follows it.
    UnterminatedBlock,
}

/// What discarding the text before the first start delimiter yields: the
/// text from the delimiter on, or `BlockNotFound`.
pub open spec fn discard_spec(t: Seq<char>, start: Seq<char>) -> Result<Seq<char>, LocateError> {
    match find_at(t, start) {
        None => Err(LocateError::BlockNotFound),
        Some(i) => Ok(t.skip(i)),
    }
}

/// What locating a block in `t` yields: the remainder after the end
/// delimiter together with the text strictly between the delimiters, or
/// the error that says which delimiter was missing.
pub open spec fn locate_spec(t: Seq<char>, start: Seq<char>, end: Seq<char>) -> Result<
    (Seq<char>, Seq<char>),
    LocateError,
> {
    match find_at(t, start) {
        None => Err(LocateError::BlockNotFound),
        Some(i) => {
            let after = t.skip(i + start.len() as int);
            match find_at(after, end) {
                None => Err(LocateError::UnterminatedBlock),
                Some(j) => Ok((after.skip(j + end.len() as int), after.take(j))),
            }
        },
    }
}

/// Drops everything before the first occurrence of `start`.
pub fn discard<'a>(input: &'a str, start: &'a str) -> (r: Result<&'a str, LocateError>)
    ensures
        match r {
            Ok(rest) => discard_spec(input@, start@) == Ok::<Seq<char>, LocateError>(rest@),
            Err(e) => discard_spec(input@, start@) == Err::<Seq<char>, LocateError>(e),
        },
{
    let n = input.unicode_len();
    match find_sub(input, start) {
        None => {
            proof {
                lemma_no_occurrence_find(input@, start@);
            }
            Err(LocateError::BlockNotFound)
        },
        Some(i) => {
            proof {
                lemma_first_occurrence_find(input@, start@, i as int);
            }
            let rest = input.substring_char(i, n);
            proof {
                assert(rest@ =~= input@.skip(i as int));
            }
            Ok(rest)
        },
    }
}

/// Locates the first documentation block of `input`: the text strictly
/// between the first occurrence of `start` and the first occurrence of
/// `end` after it.  Everything before `start` is discarded; the remainder
/// after `end` is returned for further scanning.
pub fn extract_comment_block<'a>(input: &'a str, start: &'a str, end: &'a str) -> (r: Result<
    (&'a str, &'a str),
    LocateError,
>)
    requires
        start@.len() > 0,
        end@.len() > 0,
    ensures
        match r {
            Ok((rest, block)) => locate_spec(input@, start@, end@) == Ok::<
                (Seq<char>, Seq<char>),
                LocateError,
            >((rest@, block@)) && rest@.len() + start@.len() + end@.len() <= input@.len(),
            Err(e) => locate_spec(input@, start@, end@) == Err::<
                (Seq<char>, Seq<char>),
                LocateError,
            >(e),
        },
{
    let n = input.unicode_len();
    match find_sub(input, start) {
        None => {
            proof {
                lemma_no_occurrence_find(input@, start@);
            }
            Err(LocateError::BlockNotFound)
        },
        Some(i) => {
            proof {
                lemma_first_occurrence_find(input@, start@, i as int);
            }
            let s_len = start.unicode_len();
            let after = input.substring_char(i + s_len, n);
            proof {
                assert(after@ =~= input@.skip(i + s_len));
            }
            match find_sub(after, end) {
                None => {
                    proof {
                        lemma_no_occurrence_find(after@, end@);
                    }
                    Err(LocateError::UnterminatedBlock)
                },
                Some(j) => {
                    proof {
                        lemma_first_occurrence_find(after@, end@, j as int);
                    }
                    let e_len = end.unicode_len();
                    let a_len = after.unicode_len();
                    let block = after.substring_char(0, j);
                    let rest = after.substring_char(j + e_len, a_len);
                    proof {
                        assert(block@ =~= after@.take(j as int));
                        assert(rest@ =~= after@.skip(j + e_len));
                    }
                    Ok((rest, block))
                },
            }
        },
    }
}

/// A text without the start delimiter holds no block: location fails with
/// `BlockNotFound`.
pub proof fn lemma_locate_without_start(t: Seq<char>, start: Seq<char>, end: Seq<char>)
    requires
        !has_occurrence(t, start),
    ensures
        locate_spec(t, start, end) == Err::<(Seq<char>, Seq<char>), LocateError>(
            LocateError::BlockNotFound,
        ),
{
    lemma_no_occurrence_find(t, start);
}

/// A well-formed bracketed input is taken apart exactly: locating in
/// `prefix + start + body + end + suffix` yields the block `body` and the
/// remainder `suffix`.  The preconditions rule out a stray occurrence of
/// `start` beginning inside `prefix`, and of `end` beginning inside
/// `body`; without them an earlier occurrence would win.
pub proof fn lemma_locate_well_formed(
    prefix: Seq<char>,
    start: Seq<char>,
    body: Seq<char>,
    end: Seq<char>,
    suffix: Seq<char>,
)
    requires
        start.len() > 0,
        end.len() > 0,
        forall|i: int|
            0 <= i < prefix.len() ==> !occurs_at(prefix + start + body + end + suffix, start, i),
        forall|j: int| 0 <= j < body.len() ==> !occurs_at(body + end + suffix, end, j),
    ensures
        locate_spec(prefix + start + body + end + suffix, start, end) == Ok::<
            (Seq<char>, Seq<char>),
            LocateError,
        >((suffix, body)),
{
    let t = prefix + start + body + end + suffix;
    let p = prefix.len() as int;
    assert(t.subrange(p, p + start.len() as int) =~= start);
    assert(occurs_at(t, start, p));
    lemma_first_occurrence_find(t, start, p);
    let after = t.skip(p + start.len() as int);
    assert(after =~= body + end + suffix);
    let b = body.len() as int;
    assert(after.subrange(b, b + end.len() as int) =~= end);
    assert(occurs_at(after, end, b));
    lemma_first_occurrence_find(after, end, b);
    assert(after.take(b) =~= body);
    assert(after.skip(b + end.len() as int) =~= suffix);
}

/// A content line as stored: every leading occurrence of the delimiter
/// character and of the space character is removed; the rest of the line
/// is kept as found.
pub open spec fn strip_leading(l: Seq<char>, d: char) -> Seq<char>
    decreases l.len(),
{
    if l.len() > 0 && (l[0] == d || l[0] == ' ') {
        strip_leading(l.drop_first(), d)
    } else {
        l
    }
}

/// The stored content lines of a block body: the body is split at each
/// newline character, and each line is stripped of its leading delimiter
/// and space characters.  A body ending in a newline yields no final
/// empty line.
pub open spec fn normalize_spec(t: Seq<char>, d: char) -> Seq<Seq<char>>
    decreases t.len(),
{
    if t.len() == 0 {
        Seq::empty()
    } else {
        match find_char(t, '\n') {
            None => seq![strip_leading(t, d)],
            Some(j) => {
                proof {
                    lemma_find_char_spec(t, '\n');
                }
                seq![strip_leading(t.take(j), d)] + normalize_spec(t.skip(j + 1), d)
            },
        }
    }
}

/// Strips the leading delimiter and space characters from one line.
fn strip_line(line: &str, d: char) -> (r: String)
    ensures
        r@ == strip_leading(line@, d),
{
    let n = line.unicode_len();
    let mut i: usize = 0;
    proof {
        assert(line@.skip(0) =~= line@);
    }
    loop
        invariant
            n == line@.len(),
            0 <= i <= n,
            strip_leading(line@, d) == strip_leading(line@.skip(i as int), d),
        ensures
            0 <= i <= n,
            strip_leading(line@, d) == strip_leading(line@.skip(i as int), d),
            i < n ==> !(line@[i as int] == d || line@[i as int] == ' '),
        decreases n - i,
    {
        if i >= n {
            break;
        }
        let c = line.get_char(i);
        if c != d && c != ' ' {
            break;
        }
        proof {
            assert(line@.skip(i as int)[0] == line@[i as int]);
            assert(line@.skip(i as int).drop_first() =~= line@.skip(i as int + 1));
        }
        i += 1;
    }
    let rest = line.substring_char(i, n);
    proof {
        if i < n {
            assert(line@.skip(i as int)[0] == line@[i as int]);
            assert(strip_leading(line@.skip(i as int), d) == line@.skip(i as int));
        } else {
            assert(line@.skip(i as int) =~= Seq::<char>::empty());
        }
        assert(rest@ =~= line@.skip(i as int));
    }
    rest.to_owned()
}

/// Splits a block body into lines and strips each line's leading
/// delimiter and space characters; the result is the sequence of content
/// lines stored for the block's section.
pub fn extract_comments_from_block(block: &str, delimiter: char) -> (r: Vec<String>)
    ensures
        r.deep_view() == normalize_spec(block@, delimiter),
{
    let mut result: Vec<String> = Vec::new();
    let n = block.unicode_len();
    let mut pos: usize = 0;
    proof {
        assert(block@.skip(0) =~= block@);
        assert(result.deep_view() + normalize_spec(block@, delimiter) =~= normalize_spec(
            block@,
            delimiter,
        ));
    }
    loop
        invariant_except_break
            result.deep_view() + normalize_spec(block@.skip(pos as int), delimiter)
                == normalize_spec(block@, delimiter),
        invariant
            n == block@.len(),
            0 <= pos <= n,
        ensures
            result.deep_view() == normalize_spec(block@, delimiter),
        decreases n - pos,
    {
        let ghost tail_seq = block@.skip(pos as int);
        let tail = block.substring_char(pos, n);
        proof {
            assert(tail@ =~= tail_seq);
        }
        let ghost pre = result.deep_view();
        match find_char_pos(tail, '\n') {
            Some(j) => {
                proof {
                    lemma_find_char_spec(tail_seq, '\n');
                }
                let line = block.substring_char(pos, pos + j);
                let s = strip_line(line, delimiter);
                result.push(s);
                proof {
                    assert(line@ =~= tail_seq.take(j as int));
                    assert(normalize_spec(tail_seq, delimiter) == seq![
                        strip_leading(tail_seq.take(j as int), delimiter),
                    ] + normalize_spec(tail_seq.skip(j + 1), delimiter));
                    assert(result.deep_view() =~= pre.push(s@));
                    assert(tail_seq.skip(j + 1) =~= block@.skip(pos + j + 1));
                    assert(pre.push(s@) + normalize_spec(tail_seq.skip(j + 1), delimiter) =~= pre
                        + normalize_spec(tail_seq, delimiter));
                }
                pos = pos + j + 1;
            },
            None => {
                if pos < n {
                    let line = block.substring_char(pos, n);
                    let s = strip_line(line, delimiter);
                    result.push(s);
                    proof {
                        assert(line@ =~= tail_seq);
                        assert(normalize_spec(tail_seq, delimiter) == seq![
                            strip_leading(tail_seq, delimiter),
                        ]);
                        assert(result.deep_view() =~= pre.push(s@));
                        assert(pre.push(s@) =~= pre + normalize_spec(tail_seq, delimiter));
                    }
                } else {
                    proof {
                        assert(tail_seq =~= Seq::<char>::empty());
                        assert(pre + normalize_spec(tail_seq, delimiter) =~= pre);
                    }
                }
                break;
            },
        }
    }
    result
}

} // verus!
