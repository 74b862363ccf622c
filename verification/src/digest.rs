//! The MD5 tool: its command line, the digest of a file's bytes in
//! lower-case hexadecimal, and the comparison of two hash strings.

use vstd::prelude::*;
use vstd::string::*;
use crate::text::push_char;

verus! {

/// The MD5 digest of some bytes, as `md5::compute` gives it.
pub uninterp spec fn md5_of(data: Seq<u8>) -> Seq<u8>;

/// The MD5 digest of some bytes (`md5::compute`), its sixteen bytes named by
/// `md5_of`.
#[verifier::external_body]
fn md5_compute(data: &[u8]) -> (r: [u8; 16])
    ensures
        r@ == md5_of(data@),
{
    md5::compute(data).0
}

/// The lower-case hexadecimal digit of `d < 16`.
pub open spec fn hex_lower(d: u8) -> char {
    if d < 10 {
        ((d + 0x30) as u8) as char
    } else {
        ((d - 10 + 0x61) as u8) as char
    }
}

/// Each byte as two lower-case hexadecimal digits (`{:02x}` per byte).
pub open spec fn hex_of(bytes: Seq<u8>) -> Seq<char>
    decreases bytes.len(),
{
    if bytes.len() == 0 {
        Seq::empty()
    } else {
        hex_of(bytes.drop_last()) + seq![hex_lower(bytes.last() / 16), hex_lower(bytes.last() % 16)]
    }
}

/// The hexadecimal text is twice as long as the bytes.
pub proof fn lemma_hex_len(bytes: Seq<u8>)
    ensures
        hex_of(bytes).len() == 2 * bytes.len(),
    decreases bytes.len(),
{
    if bytes.len() > 0 {
        lemma_hex_len(bytes.drop_last());
    }
}

/// The character of a hexadecimal digit.
fn hex_digit(d: u8) -> (c: char)
    requires
        d < 16,
    ensures
        c == hex_lower(d),
{
    if d < 10 {
        ((d + 0x30) as u8) as char
    } else {
        ((d - 10 + 0x61) as u8) as char
    }
}

/// The bytes in lower-case hexadecimal (the `LowerHex` form of a digest).
pub fn to_hex_lower(bytes: &[u8]) -> (r: String)
    ensures
        r@ == hex_of(bytes@),
{
    let mut s = String::new();
    let mut i: usize = 0;
    assert(bytes@.take(0) =~= Seq::<u8>::empty());
    while i < bytes.len()
        invariant
            i <= bytes@.len(),
            s@ == hex_of(bytes@.take(i as int)),
        decreases bytes@.len() - i,
    {
        let b = bytes[i];
        push_char(&mut s, hex_digit(b / 16));
        push_char(&mut s, hex_digit(b % 16));
        proof {
            assert(bytes@.take(i + 1).drop_last() =~= bytes@.take(i as int));
            assert(bytes@.take(i + 1).last() == b);
            assert(s@ =~= hex_of(bytes@.take(i + 1)));
        }
        i += 1;
    }
    assert(bytes@.take(i as int) =~= bytes@);
    s
}

/// The MD5 digest of some bytes in lower-case hexadecimal, 32 characters.
pub fn md5_hex(data: &[u8]) -> (r: String)
    ensures
        r@ == hex_of(md5_of(data@)),
        r@.len() == 32,
{
    let digest = md5_compute(data);
    proof {
        lemma_hex_len(md5_of(data@));
    }
    to_hex_lower(&digest)
}

/// What the MD5 tool is asked to do.
pub enum Md5Command {
    /// No option: show the usage and fail.
    Usage,
    /// `-h` or `--help`: show the usage.
    Help,
    /// `-f <path>`: print the digest of the file.
    Digest { path: String },
    /// `-f` without exactly one path: complain, show the usage and fail.
    DigestArgs,
    /// `-c <hash1> <hash2>`: say whether the two hashes are the same.
    Compare { same: bool },
    /// `-c` without exactly two hashes: complain, show the usage and fail.
    CompareArgs,
    /// Any other option: name it, show the usage and fail.
    InvalidOption { option: String },
}

/// The command that the arguments (program name first) ask for.
pub open spec fn md5_command(args: Seq<Seq<char>>) -> Md5CommandSpec {
    if args.len() < 2 {
        Md5CommandSpec::Usage
    } else if args[1] == "-h"@ || args[1] == "--help"@ {
        Md5CommandSpec::Help
    } else if args[1] == "-f"@ {
        if args.len() != 3 {
            Md5CommandSpec::DigestArgs
        } else {
            Md5CommandSpec::Digest { path: args[2] }
        }
    } else if args[1] == "-c"@ {
        if args.len() != 4 {
            Md5CommandSpec::CompareArgs
        } else {
            Md5CommandSpec::Compare { same: args[2] == args[3] }
        }
    } else {
        Md5CommandSpec::InvalidOption { option: args[1] }
    }
}

/// An `Md5Command` with its texts as character sequences.
pub enum Md5CommandSpec {
    Usage,
    Help,
    Digest { path: Seq<char> },
    DigestArgs,
    Compare { same: bool },
    CompareArgs,
    InvalidOption { option: Seq<char> },
}

impl View for Md5Command {
    type V = Md5CommandSpec;

    open spec fn view(&self) -> Md5CommandSpec {
        match self {
            Md5Command::Usage => Md5CommandSpec::Usage,
            Md5Command::Help => Md5CommandSpec::Help,
            Md5Command::Digest { path } => Md5CommandSpec::Digest { path: path@ },
            Md5Command::DigestArgs => Md5CommandSpec::DigestArgs,
            Md5Command::Compare { same } => Md5CommandSpec::Compare { same: *same },
            Md5Command::CompareArgs => Md5CommandSpec::CompareArgs,
            Md5Command::InvalidOption { option } => Md5CommandSpec::InvalidOption { option: option@ },
        }
    }
}

/// Whether two hash strings are the same.
pub fn hashes_equal(hash1: &String, hash2: &String) -> (r: bool)
    ensures
        r == (hash1@ == hash2@),
{
    *hash1 == *hash2
}

/// The command that the arguments ask for; the first argument is the
/// program's name.
pub fn parse_md5_args(args: &Vec<String>) -> (r: Md5Command)
    requires
        args@.len() >= 1,
    ensures
        r@ == md5_command(args.deep_view()),
{
    let ghost a = args.deep_view();
    if args.len() < 2 {
        return Md5Command::Usage;
    }
    let opt = &args[1];
    let h = String::from_str("-h");
    let help = String::from_str("--help");
    let f = String::from_str("-f");
    let c = String::from_str("-c");
    proof {
        assert(a[1] == opt@);
    }
    if *opt == h || *opt == help {
        Md5Command::Help
    } else if *opt == f {
        if args.len() != 3 {
            Md5Command::DigestArgs
        } else {
            assert(a[2] == args@[2]@);
            Md5Command::Digest { path: args[2].clone() }
        }
    } else if *opt == c {
        if args.len() != 4 {
            Md5Command::CompareArgs
        } else {
            assert(a[2] == args@[2]@ && a[3] == args@[3]@);
            Md5Command::Compare { same: hashes_equal(&args[2], &args[3]) }
        }
    } else {
        Md5Command::InvalidOption { option: opt.clone() }
    }
}

} // verus!
