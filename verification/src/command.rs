//! The command to spawn and its arguments.

use vstd::prelude::*;

use crate::text::{self, join, to_decimal};

verus! {

/// The command that is spawned where none is given.
pub open spec fn default_binary() -> Seq<char> {
    "/usr/bin/true"@
}

/// Splits a command into the binary and its arguments; without a command the
/// binary is `/usr/bin/true`.
pub fn split_command(command: Vec<String>) -> (r: (String, Vec<String>))
    ensures
        command@.len() == 0 ==> r.0@ == default_binary() && r.1@.len() == 0,
        command@.len() > 0 ==> r.0 == command@[0] && r.1@ == command@.drop_first(),
{
    if command.len() == 0 {
        return ("/usr/bin/true".to_owned(), Vec::new());
    }
    let mut rest = command;
    let binary = rest.remove(0);
    assert(rest@ =~= command@.drop_first());
    (binary, rest)
}

/// The command line as it is shown: the binary and its arguments with a blank
/// before each.
pub open spec fn command_line(binary: Seq<char>, args: Seq<Seq<char>>) -> Seq<char> {
    if args.len() == 0 {
        binary
    } else {
        binary + " "@ + text::joined(args, " "@)
    }
}

/// Writes the command line.
pub fn show_command(binary: &str, args: &[String]) -> (s: String)
    ensures
        s@ == command_line(binary@, text::views(args@)),
{
    let mut s = binary.to_owned();
    if args.len() > 0 {
        s.append(" ");
        s.append(join(args, " ").as_str());
    }
    s
}

/// `i` is the position of the first NUL byte.
pub open spec fn first_nul(bytes: Seq<u8>, i: int) -> bool {
    &&& 0 <= i < bytes.len()
    &&& bytes[i] == 0
    &&& forall|j: int| 0 <= j < i ==> #[trigger] bytes[j] != 0
}

/// Whether the bytes can be a C string.
pub open spec fn nul_free(bytes: Seq<u8>) -> bool {
    forall|j: int| 0 <= j < bytes.len() ==> #[trigger] bytes[j] != 0
}

/// Word `k` is the first that cannot be a C string, for the NUL byte at `at`.
pub open spec fn first_bad(words: Seq<Seq<u8>>, k: int, at: int) -> bool {
    &&& 0 <= k < words.len()
    &&& first_nul(words[k], at)
    &&& forall|j: int| 0 <= j < k ==> nul_free(#[trigger] words[j])
}

/// `at` is the position of the first NUL byte in the first word that holds one.
pub open spec fn first_nul_of(words: Seq<Seq<u8>>, at: int) -> bool {
    exists|k: int| first_bad(words, k, at)
}

/// The bytes of `s` for a C string, or the position of the first NUL byte,
/// which a C string cannot hold.
pub fn c_bytes(s: &str) -> (r: Result<Vec<u8>, usize>)
    ensures
        match r {
            Ok(bytes) => bytes@ == vstd::utf8::encode_utf8(s@) && nul_free(bytes@),
            Err(at) => first_nul(vstd::utf8::encode_utf8(s@), at as int),
        },
{
    let bytes = s.as_bytes();
    let mut r: Vec<u8> = Vec::new();
    for i in 0..bytes.len()
        invariant
            bytes@ == vstd::utf8::encode_utf8(s@),
            r@ == bytes@.take(i as int),
            forall|j: int| 0 <= j < i ==> #[trigger] bytes@[j] != 0,
    {
        if bytes[i] == 0 {
            return Err(i);
        }
        r.push(bytes[i]);
        assert(r@ =~= bytes@.take(i + 1));
    }
    assert(r@ =~= bytes@);
    Ok(r)
}

/// The message for text with a NUL byte at `at`.
pub open spec fn nul_text(at: nat) -> Seq<char> {
    "nul byte found in provided data at position: "@ + text::decimal(at)
}

/// The message for a binary with a NUL byte at `at`.
pub fn nul_message(at: usize) -> (s: String)
    ensures
        s@ == nul_text(at as nat),
{
    "nul byte found in provided data at position: ".to_owned().concat(
        to_decimal(at as u128).as_str(),
    )
}

/// The message for an argument with a NUL byte at `at`.
pub fn nul_argument_message(at: usize) -> (s: String)
    ensures
        s@ == "argument contains NUL byte: "@ + nul_text(at as nat),
{
    "argument contains NUL byte: ".to_owned().concat(nul_message(at).as_str())
}

/// An argument vector: the bytes of each argument, the binary first.
pub struct Argv {
    strings: Vec<Vec<u8>>,
}

impl View for Argv {
    type V = Seq<Seq<u8>>;

    closed spec fn view(&self) -> Seq<Seq<u8>> {
        self.strings@.map_values(|v: Vec<u8>| v@)
    }
}

/// The bytes of the binary and of each argument.
pub open spec fn argument_bytes(binary: Seq<char>, args: Seq<String>) -> Seq<Seq<u8>> {
    seq![vstd::utf8::encode_utf8(binary)] + args.map_values(|a: String| vstd::utf8::encode_utf8(a@))
}

impl Argv {
    /// Every argument can be a C string, and there is at least the binary.
    pub open spec fn well_formed(self) -> bool {
        &&& self@.len() > 0
        &&& forall|i: int| 0 <= i < self@.len() ==> nul_free(#[trigger] self@[i])
    }

    /// The argument vector of `binary` with `args`, or the position of the
    /// first NUL byte in the first of them that holds one.
    pub fn new(binary: &str, args: &[String]) -> (r: Result<Argv, usize>)
        ensures
            match r {
                Ok(argv) => argv.well_formed() && argv@ == argument_bytes(binary@, args@),
                Err(at) => first_nul_of(argument_bytes(binary@, args@), at as int),
            },
    {
        let ghost all = argument_bytes(binary@, args@);
        let mut strings: Vec<Vec<u8>> = Vec::new();
        match c_bytes(binary) {
            Ok(bytes) => strings.push(bytes),
            Err(at) => {
                assert(first_bad(all, 0, at as int));
                return Err(at);
            },
        }
        for i in 0..args.len()
            invariant
                all == argument_bytes(binary@, args@),
                strings@.len() == i + 1,
                forall|j: int|
                    0 <= j < strings@.len() ==> #[trigger] strings@[j]@ == all[j] && nul_free(
                        all[j],
                    ),
        {
            assert(all[i + 1] == vstd::utf8::encode_utf8(args@[i as int]@));
            match c_bytes(args[i].as_str()) {
                Ok(bytes) => strings.push(bytes),
                Err(at) => {
                    assert forall|j: int| 0 <= j < i + 1 implies nul_free(#[trigger] all[j]) by {
                        assert(strings@[j]@ == all[j]);
                    }
                    assert(first_bad(all, i + 1, at as int));
                    return Err(at);
                },
            }
        }
        let argv = Argv { strings };
        assert(argv@ =~= all);
        Ok(argv)
    }

    /// The number of arguments, the binary included.
    pub fn len(&self) -> (n: usize)
        ensures
            n == self@.len(),
    {
        self.strings.len()
    }

    /// The bytes of the argument at `i`.
    pub fn get(&self, i: usize) -> (bytes: &[u8])
        requires
            i < self@.len(),
        ensures
            bytes@ == self@[i as int],
    {
        self.strings[i].as_slice()
    }
}

/// There is only one first word that cannot be a C string, and one first NUL
/// byte in it.
pub proof fn first_bad_word_is_unique(words: Seq<Seq<u8>>, k: int, at: int, l: int, to: int)
    requires
        first_bad(words, k, at),
        first_bad(words, l, to),
    ensures
        k == l,
        at == to,
{
    if k < l {
        assert(nul_free(words[k]));
    } else if l < k {
        assert(nul_free(words[l]));
    } else if at < to {
        assert(words[k][at] != 0);
    } else if to < at {
        assert(words[k][to] != 0);
    }
}

} // verus!
