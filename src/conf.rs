//! Per-mailbox settings of an account.
use crate::imap::SpecialUsage;
use vstd::prelude::*;

verus! {

/// A setting that may be unset, set by the user, or set internally.
#[derive(Clone, Copy, Debug, PartialEq, Eq, Structural)]
pub enum ToggleFlag {
    Unset,
    InternalVal(bool),
    False,
    True,
}

impl Default for ToggleFlag {
    fn default() -> (r: ToggleFlag)
        ensures
            r == ToggleFlag::Unset,
    {
        ToggleFlag::Unset
    }
}

impl ToggleFlag {
    pub fn from_bool(val: bool) -> (r: ToggleFlag)
        ensures
            r == if val {
                ToggleFlag::True
            } else {
                ToggleFlag::False
            },
    {
        if val {
            ToggleFlag::True
        } else {
            ToggleFlag::False
        }
    }

    pub fn is_unset(&self) -> (r: bool)
        ensures
            r == (*self == ToggleFlag::Unset),
    {
        *self == ToggleFlag::Unset
    }

    pub fn is_internal(&self) -> (r: bool)
        ensures
            r == (*self is InternalVal),
    {
        match *self {
            ToggleFlag::InternalVal(_) => true,
            _ => false,
        }
    }

    pub fn is_false(&self) -> (r: bool)
        ensures
            r == (*self == ToggleFlag::False || *self == ToggleFlag::InternalVal(false)),
    {
        *self == ToggleFlag::False || *self == ToggleFlag::InternalVal(false)
    }

    pub fn is_true(&self) -> (r: bool)
        ensures
            r == (*self == ToggleFlag::True || *self == ToggleFlag::InternalVal(true)),
    {
        *self == ToggleFlag::True || *self == ToggleFlag::InternalVal(true)
    }
}

/// The settings of one mailbox.
#[derive(Debug, Clone)]
pub struct FolderConf {
    pub rename: Option<String>,
    pub autoload: bool,
    pub subscribe: ToggleFlag,
    pub ignore: ToggleFlag,
    pub usage: Option<SpecialUsage>,
}

impl Default for FolderConf {
    fn default() -> (r: FolderConf)
        ensures
            r.rename is None,
            r.autoload,
            r.subscribe == ToggleFlag::Unset,
            r.ignore == ToggleFlag::Unset,
            r.usage is None,
    {
        FolderConf {
            rename: None,
            autoload: true,
            subscribe: ToggleFlag::Unset,
            ignore: ToggleFlag::Unset,
            usage: None,
        }
    }
}

impl FolderConf {
    /// The name to show for the mailbox instead of its own, if any.
    pub fn rename(&self) -> (r: Option<&str>)
        ensures
            match self.rename {
                Some(s) => r matches Some(t) && t@ == s@,
                None => r is None,
            },
    {
        match &self.rename {
            Some(s) => Some(s.as_str()),
            None => None,
        }
    }
}

} // verus!
