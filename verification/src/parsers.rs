//! Finding the markdown header of a block, and the driver that scans a
//! whole file's text into a mapping of sections.

use vstd::prelude::*;
use crate::scan::{find_at, find_char, find_char_pos, lemma_find_at_spec, lemma_find_char_spec,
    lemma_no_char_find};
use crate::extractors::{locate_spec, extract_comment_block, extract_comments_from_block,
    normalize_spec};
use crate::docmap::{DocMap, DocModel, upsert_append};

verus! {

/// The failure of the header extractor: the block holds no markdown
/// header, so it is no section and is skipped.
#[derive(Clone, Copy, Debug, PartialEq, Eq, Structural)]
pub enum HeaderError {
    /// No `#` character occurs anywhere in the block body.
    NoHeader,
}

/// The end of the line at the head of `t`: the position of the first
/// newline, or the length of `t` when no newline follows.
pub open spec fn line_end(t: Seq<char>) -> int {
    match find_char(t, '\n') {
        Some(j) => j,
        None => t.len() as int,
    }
}

/// What extracting a header from a block body yields: the body lines
/// strictly after the header line, and the header line itself from its
/// first `#` to the end of its line, markers kept as found; or nothing
/// when the body holds no `#` at all.
pub open spec fn header_split(t: Seq<char>) -> Option<(Seq<char>, Seq<char>)> {
    match find_char(t, '#') {
        None => None,
        Some(p) => {
            let q = p + line_end(t.skip(p));
            let hdr = t.subrange(p, q);
            let body = if q < t.len() {
                t.skip(q + 1)
            } else {
                Seq::<char>::empty()
            };
            Some((body, hdr))
        },
    }
}

/// A block body without a single `#` character yields no header.
pub proof fn lemma_no_hash_no_header(t: Seq<char>)
    requires
        forall|k: int| 0 <= k < t.len() ==> t[k] != '#',
    ensures
        header_split(t) is None,
{
    lemma_no_char_find(t, '#');
}

/// Splits a block body at its first markdown header line: the remaining
/// body lines are returned together with the header text.  Fails when the
/// body holds no `#` character.
pub fn find_header<'a>(input: &'a str) -> (r: Result<(&'a str, String), HeaderError>)
    ensures
        match r {
            Ok((rest, header)) => header_split(input@) == Some((rest@, header@)),
            Err(e) => header_split(input@) is None && e == HeaderError::NoHeader,
        },
{
    let n = input.unicode_len();
    match find_char_pos(input, '#') {
        None => Err(HeaderError::NoHeader),
        Some(p) => {
            proof {
                lemma_find_char_spec(input@, '#');
            }
            let tail = input.substring_char(p, n);
            proof {
                assert(tail@ =~= input@.skip(p as int));
            }
            let q: usize = match find_char_pos(tail, '\n') {
                Some(j) => {
                    proof {
                        lemma_find_char_spec(tail@, '\n');
                    }
                    p + j
                },
                None => n,
            };
            let header = input.substring_char(p, q).to_owned();
            let rest = if q < n {
                input.substring_char(q + 1, n)
            } else {
                input.substring_char(n, n)
            };
            proof {
                if q < n {
                    assert(rest@ =~= input@.skip(q as int + 1));
                } else {
                    assert(rest@ =~= Seq::<char>::empty());
                }
            }
            Ok((rest, header))
        },
    }
}

/// The remainder a successful location leaves is strictly shorter than
/// the text it was located in.
pub proof fn lemma_locate_shrinks(t: Seq<char>, start: Seq<char>, end: Seq<char>)
    requires
        start.len() > 0,
        end.len() > 0,
    ensures
        locate_spec(t, start, end) matches Ok(p) ==> p.0.len() < t.len(),
{
    lemma_find_at_spec(t, start);
    match find_at(t, start) {
        None => {},
        Some(i) => {
            let after = t.skip(i + start.len() as int);
            lemma_find_at_spec(after, end);
        },
    }
}

/// The mapping a file's text accumulates, starting from `m`: blocks are
/// located one after another; a block whose body holds a markdown header
/// has its normalized lines recorded under that header; a block without
/// one is skipped; scanning stops when no further block can be located.
pub open spec fn accumulate_spec(
    t: Seq<char>,
    m: DocModel,
    start: Seq<char>,
    end: Seq<char>,
    d: char,
) -> DocModel
    decreases t.len(),
        when start.len() > 0 && end.len() > 0
{
    match locate_spec(t, start, end) {
        Err(_) => m,
        Ok((rest, block)) => {
            let m2 = match header_split(block) {
                None => m,
                Some((body, hdr)) => upsert_append(m, hdr, normalize_spec(body, d)),
            };
            proof {
                lemma_locate_shrinks(t, start, end);
            }
            accumulate_spec(rest, m2, start, end, d)
        },
    }
}

/// Scans `src` and accumulates its documentation sections into `map`:
/// every block bracketed by `start` and `end` whose body holds a markdown
/// header contributes its normalized content lines under that header.
pub fn parse_src(src: &str, map: DocMap, start: &str, end: &str, delimiter: char) -> (r: DocMap)
    requires
        map.wf(),
        start@.len() > 0,
        end@.len() > 0,
    ensures
        r.wf(),
        r@ == accumulate_spec(src@, map@, start@, end@, delimiter),
{
    let mut cur: String = src.to_owned();
    let mut acc = map;
    loop
        invariant
            acc.wf(),
            start@.len() > 0,
            end@.len() > 0,
            accumulate_spec(cur@, acc@, start@, end@, delimiter) == accumulate_spec(
                src@,
                map@,
                start@,
                end@,
                delimiter,
            ),
        decreases cur@.len(),
    {
        let ghost cur0 = cur@;
        let ghost acc0 = acc@;
        match extract_comment_block(cur.as_str(), start, end) {
            Err(_) => {
                proof {
                    assert(accumulate_spec(cur0, acc0, start@, end@, delimiter) == acc0);
                }
                return acc;
            },
            Ok((rest, block)) => {
                let owned_rest = rest.to_owned();
                match find_header(block) {
                    Ok((body, header)) => {
                        let lines = extract_comments_from_block(body, delimiter);
                        acc.append_lines(header, lines);
                    },
                    Err(_) => {},
                }
                proof {
                    assert(accumulate_spec(cur0, acc0, start@, end@, delimiter)
                        == accumulate_spec(rest@, acc@, start@, end@, delimiter));
                }
                cur = owned_rest;
            },
        }
    }
}

} // verus!
