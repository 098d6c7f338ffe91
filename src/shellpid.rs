use vstd::prelude::*;

use crate::text::chars_of;

verus! {

pub open spec fn is_digit(c: char) -> bool {
    '0' <= c && c <= '9'
}

pub open spec fn digit_value(c: char) -> nat {
    (c as u32 - '0' as u32) as nat
}

/// The number that a run of decimal digits writes.
pub open spec fn decimal(ds: Seq<char>) -> nat
    decreases ds.len(),
{
    if ds.len() == 0 {
        0
    } else {
        decimal(ds.drop_last()) * 10 + digit_value(ds.last())
    }
}

/// The digits of a number written with an optional leading `+`.
pub open spec fn digits_of(s: Seq<char>) -> Seq<char> {
    if s.len() > 0 && s[0] == '+' {
        s.drop_first()
    } else {
        s
    }
}

/// Text that reads as an unsigned decimal number: an optional `+`, then one
/// digit or more.
pub open spec fn is_decimal(s: Seq<char>) -> bool {
    let ds = digits_of(s);
    ds.len() > 0 && forall|i: int| 0 <= i < ds.len() ==> is_digit(ds[i])
}

#[derive(Debug, Clone, PartialEq, Eq)]
pub enum ShellPidError {
    /// The argument is not a decimal number that fits in 32 bits.
    InvalidNumber,
    /// The parent process id is not a valid process id.
    NoParent,
}

proof fn lemma_decimal_grows(ds: Seq<char>, i: int)
    requires
        0 <= i <= ds.len(),
    ensures
        decimal(ds.take(i)) <= decimal(ds),
    decreases ds.len() - i,
{
    if i < ds.len() {
        lemma_decimal_grows(ds, i + 1);
        assert(ds.take(i + 1).drop_last() =~= ds.take(i));
    } else {
        assert(ds.take(i) =~= ds);
    }
}

/// The shell's process id: the one given as an argument, read as a decimal
/// number, or else the parent process id.
pub fn determine_shellpid_or_crash(arg: Option<&str>, parent_pid: i32) -> (r: Result<
    u32,
    ShellPidError,
>)
    ensures
        match arg {
            Some(a) => {
                if is_decimal(a@) && decimal(digits_of(a@)) <= u32::MAX {
                    r == Ok::<u32, ShellPidError>(decimal(digits_of(a@)) as u32)
                } else {
                    r == Err::<u32, ShellPidError>(ShellPidError::InvalidNumber)
                }
            },
            None => {
                if parent_pid >= 1 {
                    r == Ok::<u32, ShellPidError>(parent_pid as u32)
                } else {
                    r == Err::<u32, ShellPidError>(ShellPidError::NoParent)
                }
            },
        },
{
    match arg {
        None => {
            if parent_pid < 1 {
                Err(ShellPidError::NoParent)
            } else {
                Ok(parent_pid as u32)
            }
        },
        Some(a) => {
            let cs = chars_of(a);
            let start: usize = if cs.len() > 0 && cs[0] == '+' {
                1
            } else {
                0
            };
            let ghost ds = digits_of(a@);
            assert(ds =~= cs@.skip(start as int));
            if start >= cs.len() {
                return Err(ShellPidError::InvalidNumber);
            }
            let mut acc: u64 = 0;
            let mut i: usize = start;
            while i < cs.len()
                invariant
                    start <= i <= cs@.len(),
                    ds == cs@.skip(start as int),
                    ds == digits_of(a@),
                    arg == Some(a),
                    forall|k: int| 0 <= k < i - start ==> is_digit(ds[k]),
                    acc == decimal(ds.take(i - start)),
                    acc <= u32::MAX,
                decreases cs@.len() - i,
            {
                let c = cs[i];
                assert(ds[i - start] == c);
                if !('0' <= c && c <= '9') {
                    assert(!is_digit(ds[i - start]));
                    assert(!is_decimal(a@));
                    return Err(ShellPidError::InvalidNumber);
                }
                let d = (c as u32 - '0' as u32) as u64;
                let next = acc * 10 + d;
                proof {
                    assert(ds.take(i + 1 - start).drop_last() =~= ds.take(i - start));
                    assert(ds.take(i + 1 - start).last() == c);
                    assert(d == digit_value(c));
                    assert(next == decimal(ds.take(i + 1 - start)));
                }
                if next > 4294967295 {
                    proof {
                        lemma_decimal_grows(ds, i + 1 - start);
                        assert(decimal(ds) > u32::MAX);
                    }
                    return Err(ShellPidError::InvalidNumber);
                }
                acc = next;
                i += 1;
            }
            assert(ds.take(ds.len() as int) =~= ds);
            Ok(acc as u32)
        },
    }
}

} // verus!
