use vstd::prelude::*;

use crate::error::Error;
use crate::error::StoreOp;
use crate::store;

verus! {

/// The character for one decimal digit.
pub open spec fn dec_digit(d: nat) -> char {
    if d == 0 {
        '0'
    } else if d == 1 {
        '1'
    } else if d == 2 {
        '2'
    } else if d == 3 {
        '3'
    } else if d == 4 {
        '4'
    } else if d == 5 {
        '5'
    } else if d == 6 {
        '6'
    } else if d == 7 {
        '7'
    } else if d == 8 {
        '8'
    } else {
        '9'
    }
}

/// The decimal digits of `n`, most significant first.
pub open spec fn dec_digits(n: nat) -> Seq<char>
    decreases n,
{
    if n < 10 {
        seq![dec_digit(n)]
    } else {
        dec_digits(n / 10).push(dec_digit(n % 10))
    }
}

/// One decimal digit as text.
fn digit_str(d: u64) -> (r: &'static str)
    requires
        d < 10,
    ensures
        r@ == seq![dec_digit(d as nat)],
{
    proof {
        reveal_strlit("0");
        reveal_strlit("1");
        reveal_strlit("2");
        reveal_strlit("3");
        reveal_strlit("4");
        reveal_strlit("5");
        reveal_strlit("6");
        reveal_strlit("7");
        reveal_strlit("8");
        reveal_strlit("9");
    }
    if d == 0 {
        "0"
    } else if d == 1 {
        "1"
    } else if d == 2 {
        "2"
    } else if d == 3 {
        "3"
    } else if d == 4 {
        "4"
    } else if d == 5 {
        "5"
    } else if d == 6 {
        "6"
    } else if d == 7 {
        "7"
    } else if d == 8 {
        "8"
    } else {
        "9"
    }
}

/// Renders `n` in decimal.
fn u64_dec(n: u64) -> (s: String)
    ensures
        s@ == dec_digits(n as nat),
    decreases n,
{
    if n < 10 {
        String::from_str(digit_str(n))
    } else {
        let mut s = u64_dec(n / 10);
        s.append(digit_str(n % 10));
        proof {
            assert(dec_digits((n / 10) as nat) + seq![dec_digit((n % 10) as nat)] =~= dec_digits(
                n as nat,
            ));
        }
        s
    }
}

/// The i-th name tried for a backup ref: the base name itself first, then
/// the base with `-` and the attempt number appended.
pub open spec fn backup_candidate(base: Seq<char>, i: nat) -> Seq<char> {
    if i == 0 {
        base
    } else {
        base + seq!['-'] + dec_digits(i)
    }
}

/// The i-th candidate name as text.
fn candidate_name(base: &String, i: u64) -> (s: String)
    ensures
        s@ == backup_candidate(base@, i as nat),
{
    if i == 0 {
        base.clone()
    } else {
        proof {
            reveal_strlit("-");
        }
        let s = base.clone().concat("-").concat(u64_dec(i).as_str());
        proof {
            assert(s@ =~= backup_candidate(base@, i as nat));
        }
        s
    }
}

/// Snapshots every branch's pre-run tip under a backup ref derived from the
/// branch's name; on a name collision the attempt number is appended until
/// an unused name is found. Nothing is ever overwritten; a failure is
/// always a store failure while making a backup.
pub fn backup_branches(repo: &git2::Repository, names: &Vec<String>, tips: &Vec<Vec<u8>>) -> (r:
    Result<(), Error>)
    requires
        names@.len() == tips@.len(),
    ensures
        r matches Err(e) ==> (e matches Error::Store { op, .. } && op == StoreOp::Backup),
{
    let mut b: usize = 0;
    while b < names.len()
        invariant
            names@.len() == tips@.len(),
            b <= names@.len(),
        decreases names@.len() - b,
    {
        let base = String::from_str("git-backport-backup/").concat(names[b].as_str());
        let mut i: u64 = 0;
        let mut done = false;
        while !done
            invariant
                names@.len() == tips@.len(),
                b < names@.len(),
            decreases (if done {
                0int
            } else {
                1int
            }), 0xffff_ffff_ffff_ffffu64 - i,
        {
            let candidate = candidate_name(&base, i);
            match store::try_create_branch(repo, candidate.as_str(), &tips[b]) {
                Ok(true) => {
                    done = true;
                },
                Ok(false) => {
                    if i == 0xffff_ffff_ffff_ffff {
                        return Err(Error::Store {
                            op: StoreOp::Backup,
                            message: String::from_str("no free backup branch name"),
                        });
                    }
                    i += 1;
                },
                Err(m) => {
                    return Err(Error::Store { op: StoreOp::Backup, message: m });
                },
            }
        }
        b += 1;
    }
    Ok(())
}

} // verus!
