//! The names of what the audio engine and the plugin host share.
//!
//! Such a name lives as long as any process holds what it names. So a name is
//! never used again: what is made anew, with the same ids, has the number of its
//! generation in the name.

use crate::text;
use crate::text::append_decimal;
use vstd::prelude::*;
use vstd::string::StringExecFns;

verus! {

/// How long the audio engine waits for a plugin, in milliseconds.
pub const DISPATCH_TIMEOUT_MS: u32 = 500;

/// Three numbers with `_` between them, behind a prefix.
pub open spec fn numbered(prefix: Seq<char>, a: nat, b: nat, c: nat) -> Seq<char> {
    prefix + text::decimal(a) + "_"@ + text::decimal(b) + "_"@ + text::decimal(c)
}

fn numbered_name(prefix: &str, a: u64, b: u64, c: u64) -> (r: String)
    ensures
        r@ == numbered(prefix@, a as nat, b as nat, c as nat),
{
    let mut out = prefix.to_owned();
    append_decimal(&mut out, a);
    out.append("_");
    append_decimal(&mut out, b);
    out.append("_");
    append_decimal(&mut out, c);
    out
}

/// The name of the event that wakes a worker.
pub fn worker_wake_event_name(pid: u32, generation: u32, worker_idx: u32) -> (r: String)
    ensures
        r@ == numbered("daw_01_worker_wake_"@, pid as nat, generation as nat, worker_idx as nat),
{
    numbered_name("daw_01_worker_wake_", pid as u64, generation as u64, worker_idx as u64)
}

/// The name of the event by which a worker says that it is done.
pub fn worker_done_event_name(pid: u32, generation: u32, worker_idx: u32) -> (r: String)
    ensures
        r@ == numbered("daw_01_worker_done_"@, pid as nat, generation as nat, worker_idx as nat),
{
    numbered_name("daw_01_worker_done_", pid as u64, generation as u64, worker_idx as u64)
}

/// The name of the memory through which a plugin gets its input. Each time a
/// plugin is loaded counts as an incarnation of its device.
pub fn process_data_shmem_id(pid: u32, device_id: u64, incarnation: u64) -> (r: String)
    ensures
        r@ == numbered("daw_01_process_data_"@, pid as nat, device_id as nat, incarnation as nat),
{
    numbered_name("daw_01_process_data_", pid as u64, device_id, incarnation)
}

/// The name of the memory through which workers are told what to do. It is made
/// once in the life of a process.
pub fn worker_bridge_shmem_id(pid: u32) -> (r: String)
    ensures
        r@ == "daw_01_worker_bridge_"@ + text::decimal(pid as nat),
{
    let mut out = "daw_01_worker_bridge_".to_owned();
    append_decimal(&mut out, pid as u64);
    out
}

/// Behind one prefix, names are the same only if all three numbers are. In
/// particular no name comes back in another generation.
pub proof fn law_numbered_names_are_apart(prefix: Seq<char>, a: nat, b: nat, c: nat, x: nat, y: nat, z: nat)
    requires
        numbered(prefix, a, b, c) == numbered(prefix, x, y, z),
    ensures
        a == x,
        b == y,
        c == z,
{
    reveal_strlit("_");
    let tail_a = text::decimal(b) + seq!['_'] + text::decimal(c);
    let tail_x = text::decimal(y) + seq!['_'] + text::decimal(z);
    assert(numbered(prefix, a, b, c) =~= prefix + (text::decimal(a) + seq!['_'] + tail_a));
    assert(numbered(prefix, x, y, z) =~= prefix + (text::decimal(x) + seq!['_'] + tail_x));
    text::lemma_same_head(
        prefix,
        text::decimal(a) + seq!['_'] + tail_a,
        text::decimal(x) + seq!['_'] + tail_x,
    );
    text::lemma_fields(a, tail_a, x, tail_x);
    text::lemma_fields(b, text::decimal(c), y, text::decimal(z));
    text::lemma_decimal_injective(c, z);
}

} // verus!
