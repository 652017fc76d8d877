//! The names of the files of a database.

use vstd::prelude::*;
use vstd::string::StringExecFns;

verus! {

/// The extension of the file of a write-ahead log.
pub const MEMTABLE_FILE_EXT: &'static str = ".mem";

/// The character of a decimal digit.
pub open spec fn digit_char(d: nat) -> char {
    if d == 0 {
        '0'
    } else if d == 1 {
        '1'
    } else if d == 2 {
        '2'
    } else if d == 3 {
        '3'
    } else if d == 4 {
        '4'
    } else if d == 5 {
        '5'
    } else if d == 6 {
        '6'
    } else if d == 7 {
        '7'
    } else if d == 8 {
        '8'
    } else {
        '9'
    }
}

/// The decimal digits of a number, without leading zeros.
pub open spec fn decimal(n: nat) -> Seq<char>
    decreases n,
{
    if n < 10 {
        seq![digit_char(n)]
    } else {
        decimal(n / 10).push(digit_char(n % 10))
    }
}

/// The decimal digits of a number, with zeros in front where they are
/// fewer than five.
pub open spec fn decimal5(n: nat) -> Seq<char> {
    let digits = decimal(n);
    if digits.len() >= 5 {
        digits
    } else {
        Seq::new((5 - digits.len()) as nat, |i: int| '0') + digits
    }
}

/// A file name behind a directory: a separator stands between them unless
/// the directory is empty or ends in one.
pub open spec fn joined(dir: Seq<char>, name: Seq<char>) -> Seq<char> {
    if dir.len() == 0 {
        name
    } else if dir.last() == '/' {
        dir + name
    } else {
        dir + seq!['/'] + name
    }
}

/// The name of the file of the table `id`: the id, then `.sst`.
pub open spec fn sstable_file_name(id: u64) -> Seq<char> {
    decimal(id as nat) + seq!['.', 's', 's', 't']
}

/// The name of the file of the log of the memtable `id`: the id in five
/// digits at least, then `.mem`.
pub open spec fn memtable_file_name(id: nat) -> Seq<char> {
    decimal5(id) + seq!['.', 'm', 'e', 'm']
}

fn digit_str(d: u64) -> (s: &'static str)
    requires
        d < 10,
    ensures
        s@ == seq![digit_char(d as nat)],
{
    proof {
        reveal_strlit("0");
        reveal_strlit("1");
        reveal_strlit("2");
        reveal_strlit("3");
        reveal_strlit("4");
        reveal_strlit("5");
        reveal_strlit("6");
        reveal_strlit("7");
        reveal_strlit("8");
        reveal_strlit("9");
    }
    let s = if d == 0 {
        "0"
    } else if d == 1 {
        "1"
    } else if d == 2 {
        "2"
    } else if d == 3 {
        "3"
    } else if d == 4 {
        "4"
    } else if d == 5 {
        "5"
    } else if d == 6 {
        "6"
    } else if d == 7 {
        "7"
    } else if d == 8 {
        "8"
    } else {
        "9"
    };
    assert(s@ =~= seq![digit_char(d as nat)]);
    s
}

/// Appends the decimal digits of `n` to `out`.
fn push_decimal(out: &mut String, n: u64)
    ensures
        final(out)@ == old(out)@ + decimal(n as nat),
    decreases n,
{
    if n >= 10 {
        push_decimal(out, n / 10);
    }
    out.append(digit_str(n % 10));
    assert(out@ =~= old(out)@ + decimal(n as nat));
}

/// The number of decimal digits of `n`.
fn decimal_len(n: u64) -> (len: usize)
    ensures
        len == decimal(n as nat).len(),
        1 <= len <= 20,
    decreases n,
{
    if n >= 10 {
        let shorter = decimal_len(n / 10);
        assert(n / 10 <= 0x1999_9999_9999_9999);
        proof {
            lemma_decimal_len(n as nat / 10);
        }
        shorter + 1
    } else {
        1
    }
}

/// A number below a power of ten has no more digits than the power has
/// zeros; a `u64` has at most twenty.
proof fn lemma_decimal_len(n: nat)
    requires
        n <= 0x1999_9999_9999_9999,
    ensures
        decimal(n).len() <= 19,
{
    reveal_with_fuel(decimal, 20);
}

/// Appends a separator to the directory where the file name needs one.
fn push_dir(out: &mut String, dir: &str)
    requires
        old(out)@.len() == 0,
    ensures
        forall|name: Seq<char>| #[trigger] joined(dir@, name) == final(out)@ + name,
{
    proof {
        reveal_strlit("/");
    }
    out.append(dir);
    let n = dir.unicode_len();
    if n > 0 && dir.get_char(n - 1) != '/' {
        out.append("/");
    }
    assert forall|name: Seq<char>| #[trigger] joined(dir@, name) == out@ + name by {
        assert(joined(dir@, name) =~= out@ + name);
    }
}

/// The path of the file of the table `id` in the directory `dir`.
pub fn sstable_file_path(dir: &str, id: u64) -> (path: String)
    ensures
        path@ == joined(dir@, sstable_file_name(id)),
{
    proof {
        reveal_strlit(".sst");
    }
    let mut path = String::new();
    push_dir(&mut path, dir);
    let ghost base = path@;
    push_decimal(&mut path, id);
    path.append(".sst");
    assert(path@ =~= base + sstable_file_name(id));
    path
}

/// Appends the decimal digits of `n` to `out`, with zeros in front where
/// they are fewer than five.
fn push_decimal5(out: &mut String, n: u64)
    ensures
        final(out)@ == old(out)@ + decimal5(n as nat),
{
    proof {
        reveal_strlit("0");
    }
    let len = decimal_len(n);
    let mut pad: usize = 0;
    let ghost zeros = if len >= 5 {
        0nat
    } else {
        (5 - len) as nat
    };
    while pad + len < 5
        invariant
            pad <= zeros,
            1 <= len <= 20,
            zeros == if len >= 5 {
                0nat
            } else {
                (5 - len) as nat
            },
            out@ == old(out)@ + Seq::new(pad as nat, |i: int| '0'),
        decreases 5 - pad - len,
    {
        proof {
            reveal_strlit("0");
        }
        out.append("0");
        pad += 1;
        assert(out@ =~= old(out)@ + Seq::new(pad as nat, |i: int| '0'));
    }
    push_decimal(out, n);
    assert(out@ =~= old(out)@ + decimal5(n as nat));
}

/// The path of the file of the log of the memtable `id` in the directory
/// `dir`.
pub fn path_mem(dir: &str, id: u64) -> (path: String)
    ensures
        path@ == joined(dir@, memtable_file_name(id as nat)),
{
    proof {
        reveal_strlit(".mem");
    }
    let mut path = String::new();
    push_dir(&mut path, dir);
    let ghost base = path@;
    push_decimal5(&mut path, id);
    path.append(MEMTABLE_FILE_EXT);
    assert(path@ =~= base + memtable_file_name(id as nat));
    path
}

/// The path of the file of the log of the memtable `id` in the directory
/// `dir`.
pub fn memtable_file_path(dir: &str, id: usize) -> (path: String)
    ensures
        path@ == joined(dir@, memtable_file_name(id as nat)),
{
    path_mem(dir, id as u64)
}

} // verus!
