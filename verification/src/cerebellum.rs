//! The cerebellum censors motor commands before they reach the world.

use crate::message::MotorCommand;
use crate::text::{join_path, path_join, str_starts_with};
use vstd::prelude::*;
use vstd::string::*;

verus! {

/// The message of a refused write outside the allowed directories.
pub open spec fn outside_paths_message() -> Seq<char> {
    "Error: Write attempt outside allowed paths"@
}

/// The message of a refused port.
pub open spec fn forbidden_port_message() -> Seq<char> {
    "Error: Forbidden port access"@
}

/// `"/memory"`, `"/tmp"` and `"/private/tmp"`: the prefixes under which the
/// organism may write.
pub open spec fn memory_prefix() -> Seq<char> {
    seq!['/', 'm', 'e', 'm', 'o', 'r', 'y']
}

pub open spec fn tmp_prefix() -> Seq<char> {
    seq!['/', 't', 'm', 'p']
}

pub open spec fn private_tmp_prefix() -> Seq<char> {
    seq!['/', 'p', 'r', 'i', 'v', 'a', 't', 'e', '/', 't', 'm', 'p']
}

/// A target path is allowed when its text begins with one of the allowed prefixes.
pub open spec fn path_allowed(p: Seq<char>) -> bool {
    memory_prefix().is_prefix_of(p) || tmp_prefix().is_prefix_of(p) || private_tmp_prefix().is_prefix_of(p)
}

/// Privileged ports (below 1024) and 8080 are forbidden.
pub open spec fn port_forbidden(port: Option<u16>) -> bool {
    match port {
        Some(p) => p < 1024 || p == 8080,
        None => false,
    }
}

/// What the censor decides: a forbidden port takes precedence over a
/// forbidden path; a command with neither passes.
pub open spec fn censor_verdict(path: Seq<char>, port: Option<u16>) -> Option<Seq<char>> {
    if port_forbidden(port) {
        Some(forbidden_port_message())
    } else if !path_allowed(path) {
        Some(outside_paths_message())
    } else {
        None
    }
}

/// The cerebellum, with the memory directory where it leaves its pain record.
pub struct Cerebellum {
    memory_dir: String,
}

impl Cerebellum {
    /// The memory directory.
    pub closed spec fn memory_dir_spec(&self) -> Seq<char> {
        self.memory_dir@
    }

    /// A cerebellum that records into `memory_dir`.
    pub fn new(memory_dir: String) -> (c: Self)
        requires
            memory_dir@.len() > 0,
        ensures
            c.memory_dir_spec() == memory_dir@,
    {
        Cerebellum { memory_dir }
    }

    /// Checks a motor command. A refused command gets the reason of its
    /// refusal; the caller then fires the nociceptive reflex (records the
    /// pain at `panic_dump_path` and raises the stop flag).
    pub fn censor_command(&self, command: &MotorCommand) -> (res: Result<(), &'static str>)
        requires
            command.origin_cluster_id@.len() > 0,
        ensures
            match censor_verdict(command.target_path@, command.port) {
                None => res is Ok,
                Some(m) => res matches Err(r) && r@ == m,
            },
    {
        let memory = "/memory";
        let tmp = "/tmp";
        let private_tmp = "/private/tmp";
        proof {
            reveal_strlit("/memory");
            reveal_strlit("/tmp");
            reveal_strlit("/private/tmp");
        }
        let mut is_violation = false;
        let mut reason = "";
        if !str_starts_with(command.target_path.as_str(), memory)
            && !str_starts_with(command.target_path.as_str(), tmp)
            && !str_starts_with(command.target_path.as_str(), private_tmp)
        {
            is_violation = true;
            reason = "Error: Write attempt outside allowed paths";
        }
        let port_bad = match command.port {
            Some(port) => port < 1024 || port == 8080,
            None => false,
        };
        if port_bad {
            is_violation = true;
            reason = "Error: Forbidden port access";
        }
        if is_violation {
            return Err(reason);
        }
        Ok(())
    }

    /// Where the reflex records the pain: `panic_dump.json` in the memory directory.
    pub fn panic_dump_path(&self) -> (res: String)
        ensures
            res@ == path_join(self.memory_dir_spec(), "panic_dump.json"@),
    {
        join_path(self.memory_dir.as_str(), "panic_dump.json")
    }
}

} // verus!
