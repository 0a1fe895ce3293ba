//! Decode requests: a token of path segments and a trailing number, split on
//! `:`, `.` or `/`.

use vstd::prelude::*;

verus! {

use crate::config::{BitInfo, path_of};
use crate::decode::{Report, decoded_as, enumerated_as, print_bits, smart_decode};
use crate::literal::{literal_value, parse_literal};

/// Whether `c` separates the segments of a request.
pub open spec fn is_separator(c: char) -> bool {
    c == ':' || c == '.' || c == '/'
}

/// The segments of a token between its separators; a token without one is a
/// single segment, and two separators in a row enclose an empty one.
pub open spec fn segments(s: Seq<char>) -> Seq<Seq<char>>
    decreases s.len(),
{
    if s.len() == 0 {
        seq![Seq::empty()]
    } else {
        let prev = segments(s.drop_last());
        if is_separator(s.last()) {
            prev.push(Seq::empty())
        } else {
            prev.update(prev.len() - 1, prev.last().push(s.last()))
        }
    }
}

proof fn lemma_segments_nonempty(s: Seq<char>)
    ensures
        segments(s).len() >= 1,
    decreases s.len(),
{
    if s.len() > 0 {
        lemma_segments_nonempty(s.drop_last());
    }
}

/// Splits a token into its segments.
pub fn split_segments(token: &str) -> (r: Vec<String>)
    ensures
        path_of(r@) == segments(token@),
{
    let n = token.unicode_len();
    let mut done: Vec<String> = Vec::new();
    let mut cur = String::new();
    let mut i: usize = 0;
    assert(token@.subrange(0, 0) =~= Seq::<char>::empty());
    assert(path_of(done@).push(cur@) =~= seq![Seq::<char>::empty()]);
    while i < n
        invariant
            n == token@.len(),
            0 <= i <= n,
            path_of(done@).push(cur@) == segments(token@.subrange(0, i as int)),
        decreases n - i,
    {
        let ghost prev = token@.subrange(0, i as int);
        let ghost next = token@.subrange(0, i + 1);
        assert(next.drop_last() =~= prev);
        proof {
            lemma_segments_nonempty(prev);
        }
        let c = token.get_char(i);
        if c == ':' || c == '.' || c == '/' {
            let ghost before = path_of(done@);
            let finished = cur;
            done.push(finished);
            cur = String::new();
            assert(path_of(done@) =~= before.push(finished@));
            assert(path_of(done@).push(cur@) =~= segments(next));
        } else {
            cur.push(c);
            assert(path_of(done@).push(cur@) =~= segments(next));
        }
        i = i + 1;
    }
    assert(token@.subrange(0, n as int) =~= token@);
    let ghost before = path_of(done@);
    done.push(cur);
    assert(path_of(done@) =~= before.push(cur@));
    done
}

/// Decodes one request. A token with separators names a register by its
/// leading segments and gives the value in its last one; a token without
/// one is a bare value, whose bits are listed. A value that is not a number
/// gives nothing.
pub fn decode_request(token: &str, print_each_bit: bool, configs: &Vec<(String, BitInfo)>) -> (r:
    Option<Report>)
    ensures
        ({
            let segs = segments(token@);
            if segs.len() > 1 {
                match literal_value(segs.last()) {
                    Some(n) => r is Some && decoded_as(r->Some_0, n, segs.drop_last(), configs@),
                    None => r is None,
                }
            } else {
                match literal_value(token@) {
                    Some(n) => r is Some && enumerated_as(r->Some_0, n, print_each_bit),
                    None => r is None,
                }
            }
        }),
{
    let mut segs = split_segments(token);
    if segs.len() > 1 {
        let ghost all = path_of(segs@);
        let numeric_val = segs.pop().unwrap();
        assert(path_of(segs@) =~= all.drop_last());
        match parse_literal(numeric_val.as_str()) {
            Some(nv) => Some(smart_decode(nv, &segs, configs)),
            None => None,
        }
    } else {
        match parse_literal(token) {
            Some(n) => Some(print_bits(n, print_each_bit)),
            None => None,
        }
    }
}

} // verus!
