//! The memory of the process.

use vstd::prelude::*;
use crate::client::input::{
    all_white, law_number_is_one_word, law_number_reads_back, law_white_space_is_taken_off,
    number_of, trimmed,
};
use crate::client::input;
use crate::client::outbox::Nanos;
use crate::text::{chars_of, decimal};

verus! {

/// The memory at one point in time.
#[derive(Debug, Clone, Copy, PartialEq, Eq, Structural)]
pub struct MemSnapshot {
    /// The memory in use, in bytes.
    pub working_set: u64,
    /// How long after the start of the process.
    pub elapsed: Nanos,
}

/// A text without the units behind it.
pub open spec fn without_unit(s: Seq<char>) -> Seq<char>
    decreases s.len(),
{
    if s.len() >= 2 && s[s.len() - 2] == 'k' && s[s.len() - 1] == 'B' {
        without_unit(s.take(s.len() - 2))
    } else {
        s
    }
}

/// The line says how much memory is in use.
pub open spec fn is_rss(line: Seq<char>) -> bool {
    "VmRSS:"@.is_prefix_of(line)
}

/// How much memory is in use by what such a line says, in bytes.
pub open spec fn rss_of(line: Seq<char>) -> Option<u64> {
    match number_of(trimmed(without_unit(line.skip("VmRSS:"@.len() as int)))) {
        Some(kb) => if kb * 1024 <= u64::MAX {
            Some((kb * 1024) as u64)
        } else {
            None
        },
        None => None,
    }
}

/// The first line that says how much memory is in use.
pub open spec fn first_rss(lines: Seq<String>) -> Option<u64>
    decreases lines.len(),
{
    if lines.len() == 0 {
        None
    } else if is_rss(lines[0]@) {
        rss_of(lines[0]@)
    } else {
        first_rss(lines.skip(1))
    }
}

fn line_rss(line: &str) -> (r: Option<Option<u64>>)
    ensures
        match r {
            Some(value) => is_rss(line@) && value == rss_of(line@),
            None => !is_rss(line@),
        },
{
    let prefix = chars_of("VmRSS:");
    let chars = chars_of(line);
    if chars.len() < prefix.len() {
        return None;
    }
    let mut i: usize = 0;
    while i < prefix.len()
        invariant
            i <= prefix@.len() <= chars@.len(),
            prefix@ == "VmRSS:"@,
            chars@ == line@,
            forall|k: int| 0 <= k < i ==> chars@[k] == #[trigger] prefix@[k],
        decreases prefix@.len() - i,
    {
        if chars[i] != prefix[i] {
            assert(line@[i as int] != "VmRSS:"@[i as int]);
            assert(!is_rss(line@)) by {
                if is_rss(line@) {
                    assert(line@.subrange(0, "VmRSS:"@.len() as int)[i as int] == line@[i as int]);
                }
            }
            return None;
        }
        i = i + 1;
    }
    assert(line@.subrange(0, prefix@.len() as int) =~= prefix@);
    assert(is_rss(line@));
    let from: usize = prefix.len();
    let mut to: usize = chars.len();
    let ghost rest = line@.skip(from as int);
    assert(chars@.subrange(from as int, to as int) =~= rest);
    while to - from >= 2 && chars[to - 2] == 'k' && chars[to - 1] == 'B'
        invariant
            from <= to <= chars@.len(),
            without_unit(chars@.subrange(from as int, to as int)) == without_unit(rest),
        decreases to,
    {
        proof {
            let t = chars@.subrange(from as int, to as int);
            assert(t[t.len() - 2] == chars@[to - 2]);
            assert(t[t.len() - 1] == chars@[to - 1]);
            assert(t.take(t.len() - 2) =~= chars@.subrange(from as int, to - 2));
        }
        to = to - 2;
    }
    proof {
        let t = chars@.subrange(from as int, to as int);
        if t.len() >= 2 {
            assert(t[t.len() - 2] == chars@[to - 2]);
            assert(t[t.len() - 1] == chars@[to - 1]);
        }
        assert(without_unit(t) == t);
    }
    let (a, b) = input::trim(&chars, from, to);
    match input::parse_number(&chars, a, b) {
        Some(kb) => {
            if kb <= u64::MAX / 1024 {
                Some(Some(kb * 1024))
            } else {
                Some(None)
            }
        },
        None => Some(None),
    }
}

/// How much memory is in use, in bytes, by the lines in which the system says so.
#[must_use]
pub fn vm_rss(lines: &Vec<String>) -> (r: Option<u64>)
    ensures
        r == first_rss(lines@),
{
    let mut i: usize = 0;
    assert(lines@.skip(0) =~= lines@);
    while i < lines.len()
        invariant
            i <= lines@.len(),
            first_rss(lines@.skip(i as int)) == first_rss(lines@),
        decreases lines@.len() - i,
    {
        assert(lines@.skip(i as int)[0] == lines@[i as int]);
        if let Some(value) = line_rss(lines[i].as_str()) {
            return value;
        }
        assert(lines@.skip(i as int).skip(1) =~= lines@.skip(i + 1));
        i = i + 1;
    }
    None
}

/// A line that gives a number of kibibytes in use is read as that many times 1024
/// bytes, whatever white space stands in between.
pub proof fn law_memory_line_is_read(kb: u64, pad: Seq<char>)
    requires
        all_white(pad),
        kb * 1024 <= u64::MAX,
    ensures
        ({
            let line = "VmRSS:"@ + pad + decimal(kb as nat) + " kB"@;
            is_rss(line) && rss_of(line) == Some((kb * 1024) as u64)
        }),
{
    reveal_strlit("VmRSS:");
    reveal_strlit(" kB");
    let d = decimal(kb as nat);
    let line = "VmRSS:"@ + pad + d + " kB"@;
    let rest = pad + d + " kB"@;
    assert(line.subrange(0, 6) =~= "VmRSS:"@);
    assert(line.skip(6) =~= rest);
    let t = pad + d + seq![' '];
    assert(rest.take(rest.len() - 2) =~= t);
    assert(t[t.len() - 1] == ' ');
    assert(without_unit(t) == t);
    assert(without_unit(rest) == t);
    law_number_is_one_word(kb as nat);
    law_white_space_is_taken_off(pad, d, seq![' ']);
    law_number_reads_back(kb as nat);
}

/// The first line that says how much memory is in use decides; the lines before it
/// and behind it do not.
pub proof fn law_first_memory_line_decides(before: Seq<String>, line: String, behind: Seq<String>)
    requires
        forall|i: int| 0 <= i < before.len() ==> !is_rss((#[trigger] before[i])@),
    ensures
        first_rss(before) is None,
        is_rss(line@) ==> first_rss(before + seq![line] + behind) == rss_of(line@),
    decreases before.len(),
{
    let all = before + seq![line] + behind;
    if before.len() == 0 {
        assert(all[0] == line);
    } else {
        let t = before.skip(1);
        assert forall|i: int| 0 <= i < t.len() implies !is_rss((#[trigger] t[i])@) by {
            assert(t[i] == before[i + 1]);
        }
        law_first_memory_line_decides(t, line, behind);
        assert(all[0] == before[0]);
        assert(all.skip(1) =~= t + seq![line] + behind);
    }
}

} // verus!
