//! Run configuration: stream modes, immutable metadata, and the
//! three-tier option override protocol.
//!
//! A store's [`Metadata`] is fixed at first creation and never
//! overridden.  [`Options`] are resolved from up to three tiers: a
//! value explicitly supplied on the command line wins, otherwise a
//! previously stored value survives, otherwise the hardcoded default
//! applies.  The command line hands the library an [`OptionsPatch`]
//! whose fields are `Some` exactly where the caller supplied a value;
//! the environment list counts as supplied only when it is non-empty.

use vstd::prelude::*;

use crate::bytes::copy_list;
use crate::bytes::view_list;

verus! {

/// Default stream mode for stdout.
pub const DEFAULT_STDOUT_MODE: StreamMode = StreamMode::Both;

/// Default stream mode for stderr.
pub const DEFAULT_STDERR_MODE: StreamMode = StreamMode::Print;

/// Default for preserving the parent environment.
pub const DEFAULT_PRESERVE_ENV: bool = false;

/// Default per-job time budget in seconds.
pub const DEFAULT_TIMEOUT_SECS: u64 = 10;

/// The value of an optional field, or its fallback where it is unset.
pub open spec fn or_default<T>(o: Option<T>, d: T) -> T {
    match o {
        Some(v) => v,
        None => d,
    }
}

/// How one captured stream takes part in printing and persisting.
#[derive(Debug, Clone, Copy, PartialEq, Eq, Structural)]
pub enum StreamMode {
    /// Neither save nor print.
    Off,
    /// Save to the store, do not print.
    Save,
    /// Print, do not save.
    Print,
    /// Save to the store and print.
    Both,
}

/// Whether a stream under this mode takes part in printed text.
pub open spec fn mode_prints(m: StreamMode) -> bool {
    m == StreamMode::Print || m == StreamMode::Both
}

/// Whether a stream under this mode takes part in persisted text.
pub open spec fn mode_saves(m: StreamMode) -> bool {
    m == StreamMode::Save || m == StreamMode::Both
}

impl StreamMode {
    /// Whether this mode lets the stream into printed text.
    pub fn prints(&self) -> (r: bool)
        ensures
            r == mode_prints(*self),
    {
        match self {
            StreamMode::Print => true,
            StreamMode::Both => true,
            _ => false,
        }
    }

    /// Whether this mode lets the stream into persisted text.
    pub fn saves(&self) -> (r: bool)
        ensures
            r == mode_saves(*self),
    {
        match self {
            StreamMode::Save => true,
            StreamMode::Both => true,
            _ => false,
        }
    }

    /// The lowercase name of the mode, for the operator's eyes.
    pub fn label(&self) -> (r: &'static str)
        ensures
            r@ == match *self {
                StreamMode::Off => "none"@,
                StreamMode::Save => "save"@,
                StreamMode::Print => "print"@,
                StreamMode::Both => "both"@,
            },
    {
        match self {
            StreamMode::Off => "none",
            StreamMode::Save => "save",
            StreamMode::Print => "print",
            StreamMode::Both => "both",
        }
    }
}

/// The mathematical value of a [`Metadata`].
pub ghost struct MetadataV {
    pub command: Seq<u8>,
    pub directory: Option<Seq<u8>>,
    pub files: Seq<u8>,
}

/// The immutable identity of a store: fixed when the store is first
/// created, authoritative from disk on update.
#[derive(Debug, Clone, PartialEq, Eq)]
pub struct Metadata {
    /// The shell command to run; it reads the file from stdin.
    pub command: Vec<u8>,
    /// The working directory to run from; the current directory when unset.
    pub directory: Option<Vec<u8>>,
    /// The glob pattern naming the files to test, relative to `directory`.
    pub files: Vec<u8>,
}

impl View for Metadata {
    type V = MetadataV;

    open spec fn view(&self) -> MetadataV {
        MetadataV {
            command: self.command@,
            directory: match self.directory {
                Some(ref d) => Some(d@),
                None => None,
            },
            files: self.files@,
        }
    }
}

/// The mathematical value of an [`Options`].
pub ghost struct OptionsV {
    pub stdout_mode: StreamMode,
    pub stderr_mode: StreamMode,
    pub env: Seq<Seq<u8>>,
    pub preserve_env: bool,
    pub timeout_secs: u64,
}

/// Fully resolved run configuration: every field holds a concrete
/// value, defaults already applied.
#[derive(Debug, Clone, PartialEq, Eq)]
pub struct Options {
    /// How stdout takes part in printing and persisting.
    pub stdout_mode: StreamMode,
    /// How stderr takes part in printing and persisting.
    pub stderr_mode: StreamMode,
    /// `KEY=VALUE` entries laid over the child environment last.
    pub env: Vec<Vec<u8>>,
    /// Whether the child inherits the parent environment.
    pub preserve_env: bool,
    /// Per-job wall-clock budget in seconds.
    pub timeout_secs: u64,
}

impl View for Options {
    type V = OptionsV;

    open spec fn view(&self) -> OptionsV {
        OptionsV {
            stdout_mode: self.stdout_mode,
            stderr_mode: self.stderr_mode,
            env: view_list(self.env),
            preserve_env: self.preserve_env,
            timeout_secs: self.timeout_secs,
        }
    }
}

/// What the command line supplied: `Some` (or a non-empty `env`)
/// exactly where the caller gave a value.
#[derive(Debug, Clone)]
pub struct OptionsPatch {
    pub stdout_mode: Option<StreamMode>,
    pub stderr_mode: Option<StreamMode>,
    pub env: Vec<Vec<u8>>,
    pub preserve_env: Option<bool>,
    pub timeout_secs: Option<u64>,
}

impl Options {
    /// Resolve options for a fresh store: the supplied values, with the
    /// hardcoded default for every field left unset.  The environment
    /// list is taken as given; an empty list simply stays empty.
    pub fn from_patch(p: &OptionsPatch) -> (r: Options)
        ensures
            r@ == (OptionsV {
                stdout_mode: or_default(p.stdout_mode, DEFAULT_STDOUT_MODE),
                stderr_mode: or_default(p.stderr_mode, DEFAULT_STDERR_MODE),
                env: view_list(p.env),
                preserve_env: or_default(p.preserve_env, DEFAULT_PRESERVE_ENV),
                timeout_secs: or_default(p.timeout_secs, DEFAULT_TIMEOUT_SECS),
            }),
    {
        Options {
            stdout_mode: match p.stdout_mode {
                Some(m) => m,
                None => DEFAULT_STDOUT_MODE,
            },
            stderr_mode: match p.stderr_mode {
                Some(m) => m,
                None => DEFAULT_STDERR_MODE,
            },
            env: copy_list(&p.env),
            preserve_env: match p.preserve_env {
                Some(b) => b,
                None => DEFAULT_PRESERVE_ENV,
            },
            timeout_secs: match p.timeout_secs {
                Some(t) => t,
                None => DEFAULT_TIMEOUT_SECS,
            },
        }
    }

    /// Override stored options field by field: a field supplied in the
    /// patch replaces the stored value, one left unset keeps it.  The
    /// environment list is replaced only when the supplied list is
    /// non-empty; an empty list means "leave as recorded", not "clear".
    pub fn override_with(&mut self, p: &OptionsPatch)
        ensures
            final(self)@ == (OptionsV {
                stdout_mode: or_default(p.stdout_mode, old(self).stdout_mode),
                stderr_mode: or_default(p.stderr_mode, old(self).stderr_mode),
                env: if p.env.len() > 0 {
                    view_list(p.env)
                } else {
                    old(self)@.env
                },
                preserve_env: or_default(p.preserve_env, old(self).preserve_env),
                timeout_secs: or_default(p.timeout_secs, old(self).timeout_secs),
            }),
    {
        if let Some(m) = p.stdout_mode {
            self.stdout_mode = m;
        }
        if let Some(m) = p.stderr_mode {
            self.stderr_mode = m;
        }
        if p.env.len() > 0 {
            self.env = copy_list(&p.env);
        }
        if let Some(b) = p.preserve_env {
            self.preserve_env = b;
        }
        if let Some(t) = p.timeout_secs {
            self.timeout_secs = t;
        }
    }
}

} // verus!
