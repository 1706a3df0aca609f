//! What to launch.

use vstd::prelude::*;

use crate::command::{self, c_bytes, nul_argument_message, nul_message, split_command, Argv};
use crate::plan::check_numbers;
use crate::text;

verus! {

/// A command that is ready to be spawned.
pub struct Launch {
    /// The binary.
    pub binary: String,
    /// Its arguments.
    pub args: Vec<String>,
    /// The bytes of the path of the binary.
    pub path: Vec<u8>,
    /// The argument vector.
    pub argv: Argv,
}

/// The words of a command: `/usr/bin/true` where there are none.
pub open spec fn words(command: Seq<String>) -> Seq<Seq<char>> {
    if command.len() == 0 {
        seq![command::default_binary()]
    } else {
        text::views(command)
    }
}

/// The bytes of each word.
pub open spec fn encoded(words: Seq<Seq<char>>) -> Seq<Seq<u8>> {
    words.map_values(|w: Seq<char>| vstd::utf8::encode_utf8(w))
}

/// The message for a NUL byte at `at` in word `k` of a command.
pub open spec fn bad_word_text(k: int, at: int) -> Seq<char> {
    if k == 0 {
        command::nul_text(at as nat)
    } else {
        "argument contains NUL byte: "@ + command::nul_text(at as nat)
    }
}

impl Launch {
    /// The command is launched as it was given.
    pub open spec fn of(self, words: Seq<Seq<char>>) -> bool {
        &&& self.binary@ == words[0]
        &&& text::views(self.args@) == words.drop_first()
        &&& self.path@ == encoded(words)[0]
        &&& self.argv.well_formed()
        &&& self.argv@ == encoded(words)
    }
}

/// Checks the options in order and makes the command ready. The message says
/// what is wrong: the number of threads, that of iterations, or the first word
/// of the command with a NUL byte in it.
pub fn prepare(threads: usize, iterations: usize, command: Vec<String>) -> (r: Result<
    Launch,
    String,
>)
    ensures
        match r {
            Ok(launch) => threads >= 1 && iterations >= 1 && launch.of(words(command@)),
            Err(message) => if threads == 0 {
                message@ == "--threads must be >= 1"@
            } else if iterations == 0 {
                message@ == "--iterations must be >= 1"@
            } else {
                exists|k: int, at: int| #[trigger]
                    command::first_bad(encoded(words(command@)), k, at) && message@
                        == bad_word_text(k, at)
            },
        },
{
    let ghost all = words(command@);
    let ghost bytes = encoded(all);
    match check_numbers(threads, iterations) {
        Ok(_) => {},
        Err(message) => return Err(message.to_owned()),
    }
    let (binary, args) = split_command(command);
    proof {
        assert(binary@ == all[0]);
        assert(text::views(args@) =~= all.drop_first());
        assert(command::argument_bytes(binary@, args@) =~= bytes) by {
            assert forall|i: int| 0 < i < all.len() implies all[i] == #[trigger] args@[i - 1]@ by {
                assert(text::views(args@)[i - 1] == all.drop_first()[i - 1]);
            }
        }
    }
    let path = match c_bytes(binary.as_str()) {
        Ok(path) => path,
        Err(at) => {
            assert(command::first_bad(bytes, 0, at as int));
            return Err(nul_message(at));
        },
    };
    match Argv::new(binary.as_str(), args.as_slice()) {
        Ok(argv) => Ok(Launch { binary, args, path, argv }),
        Err(at) => {
            proof {
                let k = choose|k: int| command::first_bad(bytes, k, at as int);
                assert(command::first_bad(bytes, k, at as int));
                assert(k != 0);
            }
            Err(nul_argument_message(at))
        },
    }
}

} // verus!
