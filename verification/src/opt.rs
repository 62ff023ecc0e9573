//! The command line of the program, as plain values.

use vstd::prelude::*;

verus! {

/// What the program was asked to do.
#[derive(Debug)]
pub struct Opt {
    pub subcommand: Subcommand,
}

/// The subcommands of the program.
#[derive(Debug)]
pub enum Subcommand {
    /// Print the script that sets the shell up.
    Init(InitArgs),
    /// Expand the abbreviation under the cursor.
    Expand(ExpandArgs),
}

/// What `init` is asked for.
#[derive(Debug)]
pub struct InitArgs {
    /// Whether the key bindings are printed as well.
    pub bind_keys: bool,
}

/// The line of the shell, cut at the cursor.
#[derive(Debug)]
pub struct ExpandArgs {
    /// The text before the cursor.
    pub lbuffer: String,
    /// The text after the cursor.
    pub rbuffer: String,
}

/// The line of the shell as a value.
pub struct ExpandArgsView {
    pub lbuffer: Seq<char>,
    pub rbuffer: Seq<char>,
}

impl View for ExpandArgs {
    type V = ExpandArgsView;

    open spec fn view(&self) -> ExpandArgsView {
        ExpandArgsView { lbuffer: self.lbuffer@, rbuffer: self.rbuffer@ }
    }
}

} // verus!
