//! The operator command surface of a validator node: registration and
//! template publishing. The argument-parsing front end lives outside the
//! library and hands these plain values in.

use vstd::prelude::*;

verus! {

/// A top-level operator command.
#[derive(Debug, Clone, PartialEq, Eq)]
pub enum Command {
    Vn(VnSubcommand),
    Templates(TemplateSubcommand),
}

/// Validator-node management.
#[derive(Debug, Clone, Copy, PartialEq, Eq, Structural)]
pub enum VnSubcommand {
    Register,
}

/// Template management.
#[derive(Debug, Clone, PartialEq, Eq)]
pub enum TemplateSubcommand {
    Publish(PublishTemplateArgs),
}

/// Arguments to publish a compiled template.
#[derive(Debug, Clone, PartialEq, Eq)]
pub struct PublishTemplateArgs {
    /// Path to the template code, as text.
    pub template_code_path: String,
    pub template_name: Option<String>,
    pub template_version: Option<u16>,
    pub binary_url: Option<String>,
}

} // verus!
