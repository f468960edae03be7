//! Which backend hosts a plugin.

use vstd::prelude::*;

verus! {

/// The format tag of a plugin. Identifier schemes of the formats are disjoint,
/// so every reference to a plugin carries its tag.
#[derive(Clone, Copy, Debug, PartialEq, Eq, Hash, Structural)]
pub enum PluginFormat {
    Clap,
    Vst3,
    /// Shipped with the workstation. Its identifier is a URI that is never
    /// opened as a file.
    Builtin,
}

impl Default for PluginFormat {
    /// Entries written before other formats existed carry no tag: they are CLAP.
    fn default() -> (r: PluginFormat)
        ensures
            r == PluginFormat::Clap,
    {
        PluginFormat::Clap
    }
}

/// The display name of a format.
pub open spec fn format_name(format: PluginFormat) -> Seq<char> {
    match format {
        PluginFormat::Clap => "CLAP"@,
        PluginFormat::Vst3 => "VST3"@,
        PluginFormat::Builtin => "Builtin"@,
    }
}

/// The file extension of a format; empty for plugins that are no files.
pub open spec fn format_extension(format: PluginFormat) -> Seq<char> {
    match format {
        PluginFormat::Clap => "clap"@,
        PluginFormat::Vst3 => "vst3"@,
        PluginFormat::Builtin => ""@,
    }
}

impl PluginFormat {
    /// The display name.
    pub fn as_str(self) -> (r: &'static str)
        ensures
            r@ == format_name(self),
    {
        match self {
            PluginFormat::Clap => "CLAP",
            PluginFormat::Vst3 => "VST3",
            PluginFormat::Builtin => "Builtin",
        }
    }

    /// The file extension of plugins of this format. Built-in plugins have none.
    pub fn extension(self) -> (r: &'static str)
        ensures
            r@ == format_extension(self),
    {
        match self {
            PluginFormat::Clap => "clap",
            PluginFormat::Vst3 => "vst3",
            PluginFormat::Builtin => "",
        }
    }
}

} // verus!
