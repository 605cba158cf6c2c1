use vstd::prelude::*;

verus! {

/// Number of frames in the default pool.
pub const FRAME_NUM: usize = 1024;

/// Size of one page, in bytes.
pub const PAGE_SIZE: usize = 4096;

/// Default backing file of the command-line driver.
pub const DB_FILE_NAME: &'static str = "./target/data.dbf";

/// Identifies a logical page: its byte offset in the backing file divided by
/// the page size.
pub type PageId = usize;

/// Identifies a slot of the buffer pool, in `[0, frame count)`.
pub type FrameId = usize;

/// The eviction policy a pool is built with.
#[derive(Clone, Copy, Debug, PartialEq, Eq, Structural)]
pub enum ReplacePolicy {
    Lru,
    Clock,
}

/// Settings of the command-line driver.
pub struct Config {
    pub policy: ReplacePolicy,
    pub file_path: String,
}

/// The message returned for any malformed argument list.
pub const USAGE: &'static str = "Usage: cargo run --release -- [lru|clock] [file_path]";

/// The policy named by a command-line word, if any.
pub open spec fn policy_named(word: Seq<char>) -> Option<ReplacePolicy> {
    if word == "lru"@ {
        Some(ReplacePolicy::Lru)
    } else if word == "clock"@ {
        Some(ReplacePolicy::Clock)
    } else {
        None
    }
}

impl Config {
    /// Reads `[program, policy, trace_path]`.
    pub fn build(args: &[String]) -> (r: Result<Config, &'static str>)
        ensures
            r.is_ok() <==> args@.len() == 3 && policy_named(args@[1]@).is_some(),
            r matches Ok(c) ==> c.policy == policy_named(args@[1]@).unwrap()
                && c.file_path@ == args@[2]@,
            r matches Err(m) ==> m@ == USAGE@,
    {
        if args.len() != 3 {
            return Err(USAGE);
        }
        let lru = String::from_str("lru");
        let clock = String::from_str("clock");
        let policy = if args[1] == lru {
            ReplacePolicy::Lru
        } else if args[1] == clock {
            ReplacePolicy::Clock
        } else {
            return Err(USAGE);
        };
        let file_path = args[2].clone();
        Ok(Config { policy, file_path })
    }
}

} // verus!
