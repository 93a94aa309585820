//! Names of the files that make up a log directory.

use vstd::prelude::*;
use vstd::string::StringExecFns;

verus! {

/// The lower-case hexadecimal digit that stands for `d`, for `d < 16`.
pub open spec fn hex_digit(d: nat) -> char {
    if d == 0 {
        '0'
    } else if d == 1 {
        '1'
    } else if d == 2 {
        '2'
    } else if d == 3 {
        '3'
    } else if d == 4 {
        '4'
    } else if d == 5 {
        '5'
    } else if d == 6 {
        '6'
    } else if d == 7 {
        '7'
    } else if d == 8 {
        '8'
    } else if d == 9 {
        '9'
    } else if d == 10 {
        'a'
    } else if d == 11 {
        'b'
    } else if d == 12 {
        'c'
    } else if d == 13 {
        'd'
    } else if d == 14 {
        'e'
    } else {
        'f'
    }
}

/// `n` written in lower-case hexadecimal, most significant digit first,
/// without leading zeros; zero is written as the single digit `0`.
pub open spec fn hex_digits(n: nat) -> Seq<char>
    decreases n,
{
    if n < 16 {
        seq![hex_digit(n)]
    } else {
        hex_digits(n / 16).push(hex_digit(n % 16))
    }
}

/// The suffix that every partition file name ends in.
pub open spec fn partition_suffix() -> Seq<char> {
    seq!['.', 'd', 'b', 'l', 'o', 'g']
}

/// The name of the partition file with identifier `file_id`.
pub open spec fn partition_file_name(file_id: u128) -> Seq<char> {
    hex_digits(file_id as nat) + partition_suffix()
}

/// The name of the metadata file of a log directory.
pub open spec fn meta_file_name() -> Seq<char> {
    seq!['l', 'o', 'g', 'p', 'a', 'r', 't', 's']
}

/// `name` placed inside the directory `dirname`: the two are joined by one
/// `/`, unless `dirname` is empty or already ends in one.
pub open spec fn joined_path(dirname: Seq<char>, name: Seq<char>) -> Seq<char> {
    if dirname.len() == 0 || dirname.last() == '/' {
        dirname + name
    } else {
        dirname.push('/') + name
    }
}

/// The digit that stands for `d`, as text.
fn hex_digit_str(d: u128) -> (s: &'static str)
    requires
        d < 16,
    ensures
        s@ == seq![hex_digit(d as nat)],
{
    proof {
        reveal_strlit("0");
        reveal_strlit("1");
        reveal_strlit("2");
        reveal_strlit("3");
        reveal_strlit("4");
        reveal_strlit("5");
        reveal_strlit("6");
        reveal_strlit("7");
        reveal_strlit("8");
        reveal_strlit("9");
        reveal_strlit("a");
        reveal_strlit("b");
        reveal_strlit("c");
        reveal_strlit("d");
        reveal_strlit("e");
        reveal_strlit("f");
    }
    let s = if d == 0 {
        "0"
    } else if d == 1 {
        "1"
    } else if d == 2 {
        "2"
    } else if d == 3 {
        "3"
    } else if d == 4 {
        "4"
    } else if d == 5 {
        "5"
    } else if d == 6 {
        "6"
    } else if d == 7 {
        "7"
    } else if d == 8 {
        "8"
    } else if d == 9 {
        "9"
    } else if d == 10 {
        "a"
    } else if d == 11 {
        "b"
    } else if d == 12 {
        "c"
    } else if d == 13 {
        "d"
    } else if d == 14 {
        "e"
    } else {
        "f"
    };
    assert(s@ =~= seq![hex_digit(d as nat)]);
    s
}

/// Appends the hexadecimal digits of `n` to `out`.
pub fn push_hex(out: &mut String, n: u128)
    ensures
        final(out)@ == old(out)@ + hex_digits(n as nat),
    decreases n,
{
    if n >= 16 {
        push_hex(out, n / 16);
    }
    out.append(hex_digit_str(n % 16));
}

/// The path of `name` inside the directory `dirname`.
pub fn join_path(dirname: &str, name: &str) -> (path: String)
    ensures
        path@ == joined_path(dirname@, name@),
{
    let n = dirname.unicode_len();
    let mut path = String::from_str(dirname);
    if n > 0 && dirname.get_char(n - 1) != '/' {
        proof {
            reveal_strlit("/");
        }
        path.append("/");
    }
    path.append(name);
    assert(path@ =~= joined_path(dirname@, name@));
    path
}

/// The path of the metadata file of the log directory `dirname`.
pub fn meta_file_path(dirname: &str) -> (path: String)
    ensures
        path@ == joined_path(dirname@, meta_file_name()),
{
    proof {
        reveal_strlit("logparts");
    }
    assert("logparts"@ =~= meta_file_name());
    join_path(dirname, "logparts")
}

/// The digits of a number are never empty, and a number of at least 16 has
/// at least two of them.
pub proof fn lemma_hex_digits_len(n: nat)
    ensures
        hex_digits(n).len() >= 1,
        n >= 16 ==> hex_digits(n).len() >= 2,
    decreases n,
{
    if n >= 16 {
        lemma_hex_digits_len(n / 16);
    }
}

/// Two digits are equal only if they stand for the same value.
pub proof fn lemma_hex_digit_injective(a: nat, b: nat)
    requires
        a < 16,
        b < 16,
        hex_digit(a) == hex_digit(b),
    ensures
        a == b,
{
}

/// Two numbers with the same hexadecimal digits are equal.
pub proof fn lemma_hex_digits_injective(a: nat, b: nat)
    requires
        hex_digits(a) == hex_digits(b),
    ensures
        a == b,
    decreases a,
{
    lemma_hex_digits_len(a);
    lemma_hex_digits_len(b);
    if a < 16 {
        assert(hex_digits(a).len() == 1);
        assert(b < 16);
        assert(hex_digits(a)[0] == hex_digit(a));
        assert(hex_digits(b)[0] == hex_digit(b));
        lemma_hex_digit_injective(a, b);
    } else {
        assert(hex_digits(a).len() >= 2);
        assert(b >= 16);
        let da = hex_digits(a / 16);
        let db = hex_digits(b / 16);
        assert(hex_digits(a).last() == hex_digit(a % 16));
        assert(hex_digits(b).last() == hex_digit(b % 16));
        lemma_hex_digit_injective(a % 16, b % 16);
        assert(hex_digits(a).drop_last() =~= da);
        assert(hex_digits(b).drop_last() =~= db);
        lemma_hex_digits_injective(a / 16, b / 16);
    }
}

/// Partition files with different identifiers have different names.
pub proof fn lemma_partition_file_name_injective(a: u128, b: u128)
    requires
        partition_file_name(a) == partition_file_name(b),
    ensures
        a == b,
{
    let na = partition_file_name(a);
    let nb = partition_file_name(b);
    let ha = hex_digits(a as nat);
    let hb = hex_digits(b as nat);
    assert(na.len() == ha.len() + 6);
    assert(nb.len() == hb.len() + 6);
    assert(ha =~= na.subrange(0, ha.len() as int));
    assert(hb =~= nb.subrange(0, hb.len() as int));
    lemma_hex_digits_injective(a as nat, b as nat);
}

/// No partition file is named like the metadata file.
pub proof fn lemma_partition_file_name_is_not_meta(file_id: u128)
    ensures
        partition_file_name(file_id) != meta_file_name(),
{
    let name = partition_file_name(file_id);
    let h = hex_digits(file_id as nat);
    lemma_hex_digits_len(file_id as nat);
    if name == meta_file_name() {
        assert(name.len() == 8);
        assert(h.len() == 2);
        assert(name[2] == partition_suffix()[0]);
        assert(meta_file_name()[2] == 'g');
    }
}

} // verus!
