//! The links to generations and the versions in their names.

use crate::entry::decimal;
use crate::number::{digit_of, lemma_decimal_parses, parse_number, parsed_number};
use vstd::prelude::*;
use vstd::string::StrSliceExecFns;

verus! {

/// The place of the last dash in a text, or -1 if it holds none.
pub open spec fn last_dash(text: Seq<char>) -> int
    decreases text.len(),
{
    if text.len() == 0 {
        -1
    } else if text.last() == '-' {
        text.len() - 1
    } else {
        last_dash(text.drop_last())
    }
}

/// The version that the link to a generation carries in its name: the name
/// ends in `-link`, and the number stands before that, behind the last dash.
pub open spec fn link_version_of(name: Seq<char>) -> Option<u64> {
    if name.len() >= 5 && name.subrange(name.len() - 5, name.len() as int) == "-link"@ {
        let body = name.subrange(0, name.len() - 5);
        if last_dash(body) >= 0 {
            parsed_number(body.subrange(last_dash(body) + 1, body.len() as int))
        } else {
            None
        }
    } else {
        None
    }
}

/// The last dash of a text is at `at` if a dash stands there and none behind
/// it; and there is none if no dash stands anywhere.
proof fn lemma_last_dash(text: Seq<char>, at: int)
    requires
        -1 <= at < text.len(),
        at >= 0 ==> text[at] == '-',
        forall|i: int| at < i < text.len() ==> #[trigger] text[i] != '-',
    ensures
        last_dash(text) == at,
    decreases text.len(),
{
    if text.len() > 0 && at < text.len() - 1 {
        assert(text[text.len() - 1] != '-');
        let front = text.drop_last();
        assert forall|i: int| at < i < front.len() implies #[trigger] front[i] != '-' by {
            assert(front[i] == text[i]);
        }
        lemma_last_dash(front, at);
    }
}

/// The link of a profile to its generation of a version carries that version.
pub proof fn lemma_link_version(profile: Seq<char>, version: u64)
    ensures
        link_version_of(profile + seq!['-'] + decimal(version as nat) + "-link"@) == Some(version),
{
    reveal_strlit("-link");
    let digits = decimal(version as nat);
    let suffix = "-link"@;
    let name = profile + seq!['-'] + digits + suffix;
    let body = name.subrange(0, name.len() - 5);
    lemma_decimal_parses(version as nat);
    assert(name.subrange(name.len() - 5, name.len() as int) =~= suffix);
    assert(body =~= profile + seq!['-'] + digits);
    assert forall|i: int| profile.len() < i < body.len() implies #[trigger] body[i] != '-' by {
        assert(body[i] == digits[i - profile.len() - 1]);
        assert(digit_of(digits[i - profile.len() - 1]) is Some);
    }
    lemma_last_dash(body, profile.len() as int);
    assert(body.subrange(profile.len() as int + 1, body.len() as int) =~= digits);
}

/// Reads the version from the name of the link to a generation, such as
/// `system-12-link`.
pub fn link_version(name: &str) -> (version: Option<u64>)
    ensures
        version == link_version_of(name@),
{
    proof {
        reveal_strlit("-link");
    }
    let length = name.unicode_len();
    if length < 5 {
        return None;
    }
    let end = length - 5;
    if name.get_char(end) != '-' || name.get_char(end + 1) != 'l' || name.get_char(end + 2) != 'i'
        || name.get_char(end + 3) != 'n' || name.get_char(end + 4) != 'k' {
        proof {
            let tail = name@.subrange(end as int, length as int);
            assert(tail[0] == name@[end as int]);
            assert(tail[1] == name@[end + 1]);
            assert(tail[2] == name@[end + 2]);
            assert(tail[3] == name@[end + 3]);
            assert(tail[4] == name@[end + 4]);
        }
        return None;
    }
    assert(name@.subrange(end as int, length as int) =~= "-link"@);
    let ghost body = name@.subrange(0, end as int);
    let mut at: usize = end;
    while at > 0 && name.get_char(at - 1) != '-'
        invariant
            at <= end,
            end + 5 == length,
            length == name@.len(),
            body == name@.subrange(0, end as int),
            forall|i: int| at <= i < end ==> #[trigger] body[i] != '-',
        decreases at,
    {
        at -= 1;
        assert(body[at as int] == name@[at as int]);
    }
    proof {
        if at > 0 {
            assert(body[at - 1] == name@[at - 1]);
        }
        lemma_last_dash(body, at - 1);
    }
    if at == 0 {
        return None;
    }
    proof {
        assert(body.subrange(at as int, body.len() as int) =~= name@.subrange(
            at as int,
            end as int,
        ));
    }
    parse_number(name.substring_char(at, end))
}

} // verus!
