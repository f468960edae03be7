//! The pipes between the processes.

use crate::protocol;
use crate::protocol::ChildKind;
use crate::text;
use crate::text::append_decimal;
use vstd::prelude::*;
use vstd::string::StringExecFns;

verus! {

/// The name of the pipe between the process with id `parent_pid` and a process
/// that it started.
pub open spec fn pipe_name(parent_pid: nat, kind: ChildKind) -> Seq<char> {
    "\\\\.\\pipe\\daw_01_"@ + text::decimal(parent_pid) + "_"@ + protocol::child_name(kind)
}

/// The name of the pipe between the process with id `parent_pid` and a process
/// that it started.
pub fn pipe_path(parent_pid: u32, kind: ChildKind) -> (r: String)
    ensures
        r@ == pipe_name(parent_pid as nat, kind),
{
    let mut out = "\\\\.\\pipe\\daw_01_".to_owned();
    append_decimal(&mut out, parent_pid as u64);
    out.append("_");
    out.append(kind.as_str());
    out
}

/// No two pipes have the same name.
pub proof fn law_pipes_are_apart(a: nat, b: nat, ka: ChildKind, kb: ChildKind)
    requires
        pipe_name(a, ka) == pipe_name(b, kb),
    ensures
        a == b,
        ka == kb,
{
    let head = "\\\\.\\pipe\\daw_01_"@;
    reveal_strlit("_");
    assert(pipe_name(a, ka) =~= head + (text::decimal(a) + seq!['_'] + protocol::child_name(ka)));
    assert(pipe_name(b, kb) =~= head + (text::decimal(b) + seq!['_'] + protocol::child_name(kb)));
    text::lemma_same_head(
        head,
        text::decimal(a) + seq!['_'] + protocol::child_name(ka),
        text::decimal(b) + seq!['_'] + protocol::child_name(kb),
    );
    text::lemma_fields(a, protocol::child_name(ka), b, protocol::child_name(kb));
    reveal_strlit("audio");
    reveal_strlit("plugin_host");
    assert(protocol::child_name(ChildKind::Audio)[0] == 'a');
    assert(protocol::child_name(ChildKind::PluginHost)[0] == 'p');
}

} // verus!
