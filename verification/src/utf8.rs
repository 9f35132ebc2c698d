//! UTF-8 validity: a specification of the encoding and an executable
//! validator proved against it.
//!
//! String-typed columns must hold valid UTF-8 in every value. Validation is
//! batched: after an extend, only the newly appended rows are checked.

use vstd::prelude::*;

verus! {

/// A UTF-8 continuation byte: `10xxxxxx`.
pub open spec fn is_cont(b: u8) -> bool {
    0x80 <= b <= 0xBF
}

/// Length of the well-formed encoded scalar value at the front of `s`,
/// or 0 if the front is not a well-formed encoding.
///
/// The branches are the byte-range table of RFC 3629: overlong forms,
/// surrogates (`ED A0..` and above), and values past `U+10FFFF` are all
/// excluded by the second-byte restrictions.
pub open spec fn head_len(s: Seq<u8>) -> int {
    if s.len() >= 1 && s[0] <= 0x7F {
        1
    } else if s.len() >= 2 && 0xC2 <= s[0] <= 0xDF && is_cont(s[1]) {
        2
    } else if s.len() >= 3 && s[0] == 0xE0 && 0xA0 <= s[1] <= 0xBF && is_cont(s[2]) {
        3
    } else if s.len() >= 3 && (0xE1 <= s[0] <= 0xEC || s[0] == 0xEE || s[0] == 0xEF)
        && is_cont(s[1]) && is_cont(s[2]) {
        3
    } else if s.len() >= 3 && s[0] == 0xED && 0x80 <= s[1] <= 0x9F && is_cont(s[2]) {
        3
    } else if s.len() >= 4 && s[0] == 0xF0 && 0x90 <= s[1] <= 0xBF && is_cont(s[2])
        && is_cont(s[3]) {
        4
    } else if s.len() >= 4 && 0xF1 <= s[0] <= 0xF3 && is_cont(s[1]) && is_cont(s[2])
        && is_cont(s[3]) {
        4
    } else if s.len() >= 4 && s[0] == 0xF4 && 0x80 <= s[1] <= 0x8F && is_cont(s[2])
        && is_cont(s[3]) {
        4
    } else {
        0
    }
}

/// `s` is a well-formed UTF-8 byte sequence.
pub open spec fn is_utf8(s: Seq<u8>) -> bool
    decreases s.len(),
{
    s.len() == 0 || (head_len(s) > 0 && is_utf8(s.skip(head_len(s))))
}

/// Every sequence in `spans` is well-formed UTF-8.
pub open spec fn all_utf8(spans: Seq<Seq<u8>>) -> bool {
    forall|i: int| 0 <= i < spans.len() ==> is_utf8(#[trigger] spans[i])
}

/// Whether `bytes[start..end]` is well-formed UTF-8.
pub fn check_utf8_range(bytes: &Vec<u8>, start: usize, end: usize) -> (r: bool)
    requires
        start <= end <= bytes.len(),
    ensures
        r == is_utf8(bytes@.subrange(start as int, end as int)),
{
    let ghost whole = bytes@.subrange(start as int, end as int);
    let mut i: usize = start;
    loop
        invariant
            start <= i <= end <= bytes.len(),
            whole == bytes@.subrange(start as int, end as int),
            is_utf8(whole) == is_utf8(bytes@.subrange(i as int, end as int)),
        ensures
            is_utf8(whole) == is_utf8(bytes@.subrange(i as int, end as int)),
            i == end || head_len(bytes@.subrange(i as int, end as int)) == 0,
        decreases end - i,
    {
        if i == end {
            break;
        }
        let ghost rest = bytes@.subrange(i as int, end as int);
        let avail = end - i;
        let b0 = bytes[i];
        let k: usize = if b0 <= 0x7F {
            1
        } else if avail >= 2 && 0xC2 <= b0 && b0 <= 0xDF && is_cont_exec(bytes[i + 1]) {
            2
        } else if avail >= 3 && b0 == 0xE0 && 0xA0 <= bytes[i + 1] && bytes[i + 1] <= 0xBF
            && is_cont_exec(bytes[i + 2]) {
            3
        } else if avail >= 3 && (0xE1 <= b0 && b0 <= 0xEC || b0 == 0xEE || b0 == 0xEF)
            && is_cont_exec(bytes[i + 1]) && is_cont_exec(bytes[i + 2]) {
            3
        } else if avail >= 3 && b0 == 0xED && 0x80 <= bytes[i + 1] && bytes[i + 1] <= 0x9F
            && is_cont_exec(bytes[i + 2]) {
            3
        } else if avail >= 4 && b0 == 0xF0 && 0x90 <= bytes[i + 1] && bytes[i + 1] <= 0xBF
            && is_cont_exec(bytes[i + 2]) && is_cont_exec(bytes[i + 3]) {
            4
        } else if avail >= 4 && 0xF1 <= b0 && b0 <= 0xF3 && is_cont_exec(bytes[i + 1])
            && is_cont_exec(bytes[i + 2]) && is_cont_exec(bytes[i + 3]) {
            4
        } else if avail >= 4 && b0 == 0xF4 && 0x80 <= bytes[i + 1] && bytes[i + 1] <= 0x8F
            && is_cont_exec(bytes[i + 2]) && is_cont_exec(bytes[i + 3]) {
            4
        } else {
            0
        };
        proof {
            assert(rest.len() == end - i);
            assert(forall|j: int| 0 <= j < rest.len() ==> rest[j] == bytes@[i + j]);
            assert(head_len(rest) == k as int);
        }
        if k == 0 {
            break;
        }
        proof {
            assert(bytes@.subrange(i as int, end as int).skip(k as int)
                =~= bytes@.subrange(i + k, end as int));
        }
        i = i + k;
    }
    if i == end {
        proof {
            assert(bytes@.subrange(end as int, end as int).len() == 0);
        }
        true
    } else {
        proof {
            assert(!is_utf8(bytes@.subrange(i as int, end as int)));
        }
        false
    }
}

/// Executable test for a continuation byte.
fn is_cont_exec(b: u8) -> (r: bool)
    ensures
        r == is_cont(b),
{
    0x80 <= b && b <= 0xBF
}

} // verus!
