//! Watches the organism's spoken output and rejects forbidden words.

use crate::text::{contains_seq, join_path, path_join, str_contains};
use vstd::prelude::*;
use vstd::string::*;

verus! {

/// `"forbidden_command"` and `"hack_system"`: words the body refuses to voice.
pub open spec fn forbidden_word_a() -> Seq<char> {
    seq!['f', 'o', 'r', 'b', 'i', 'd', 'd', 'e', 'n', '_', 'c', 'o', 'm', 'm', 'a', 'n', 'd']
}

pub open spec fn forbidden_word_b() -> Seq<char> {
    seq!['h', 'a', 'c', 'k', '_', 's', 'y', 's', 't', 'e', 'm']
}

/// The output contains a forbidden word.
pub open spec fn is_forbidden(content: Seq<char>) -> bool {
    contains_seq(content, forbidden_word_a()) || contains_seq(content, forbidden_word_b())
}

/// `"REJECTED: "`, put before a rejected output.
pub open spec fn rejected_prefix() -> Seq<char> {
    seq!['R', 'E', 'J', 'E', 'C', 'T', 'E', 'D', ':', ' ']
}

/// Whether `content` contains a forbidden word.
pub fn contains_forbidden_word(content: &str) -> (res: bool)
    ensures
        res == is_forbidden(content@),
{
    let word_a = "forbidden_command";
    let word_b = "hack_system";
    proof {
        reveal_strlit("forbidden_command");
        reveal_strlit("hack_system");
        assert(word_a@ =~= forbidden_word_a());
        assert(word_b@ =~= forbidden_word_b());
    }
    str_contains(content, word_a) || str_contains(content, word_b)
}

/// The monitor, with the directory where the organism leaves its speech.
pub struct ConsoleVocalMonitor {
    action_dir: String,
}

impl ConsoleVocalMonitor {
    /// The action directory.
    pub closed spec fn action_dir_spec(&self) -> Seq<char> {
        self.action_dir@
    }

    /// A monitor of the `action` directory under the absolute `memory_dir`.
    pub fn new(memory_dir: String) -> (m: Self)
        requires
            seq!['/'].is_prefix_of(memory_dir@),
        ensures
            m.action_dir_spec() == path_join(memory_dir@, seq!['a', 'c', 't', 'i', 'o', 'n']),
    {
        let action = "action";
        proof {
            reveal_strlit("action");
        }
        let action_dir = join_path(memory_dir.as_str(), action);
        ConsoleVocalMonitor { action_dir }
    }

    /// The file the organism speaks into: `vocal_text.json` in the action directory.
    pub fn vocal_output_path(&self) -> (p: String)
        ensures
            p@ == path_join(self.action_dir_spec(), "vocal_text.json"@),
    {
        join_path(self.action_dir.as_str(), "vocal_text.json")
    }

    /// Judges what the organism said, given the contents of the speech file
    /// (`None` when there is none; the caller removes the file after reading
    /// it). Output with a forbidden word comes back as `REJECTED: ` followed
    /// by the output; other output comes back as it is.
    pub fn monitor_and_validate(&self, content: Option<String>) -> (res: Option<String>)
        requires
            content matches Some(c) ==> (is_forbidden(c@) || c@.len() > 0),
        ensures
            match content {
                None => res is None,
                Some(c) => res matches Some(r) && r@ == (if is_forbidden(c@) { rejected_prefix() + c@ } else { c@ }),
            },
    {
        match content {
            None => None,
            Some(c) => {
                let prefix = "REJECTED: ";
                proof {
                    reveal_strlit("REJECTED: ");
                }
                if contains_forbidden_word(c.as_str()) {
                    let mut out = String::from_str(prefix);
                    out.append(c.as_str());
                    Some(out)
                } else {
                    Some(c)
                }
            },
        }
    }
}

} // verus!
