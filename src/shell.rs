//! The shell dialects whose history files are read, and how each is
//! recognised from a shell name.
use vstd::prelude::*;
use crate::text::{chars_of, contains_seq, has_infix};

verus! {

/// A shell whose history format is known.
#[derive(Clone, Copy, Debug, PartialEq, Eq, Structural)]
pub enum ShellType {
    Bash,
    Zsh,
    Fish,
    Csh,
    Tcsh,
    Ksh,
    Dash,
    Sh,
    Mksh,
    Yash,
    Osh,
}

/// The dialect that a shell-identifying string names: the first of `zsh`,
/// `fish`, `tcsh`, `csh`, `ksh`, `dash`, `mksh`, `yash`, `osh`, `sh`, `bash`
/// that it contains, `Bash` where it contains none.
pub open spec fn detected(s: Seq<char>) -> ShellType {
    if has_infix(s, "zsh"@) {
        ShellType::Zsh
    } else if has_infix(s, "fish"@) {
        ShellType::Fish
    } else if has_infix(s, "tcsh"@) {
        ShellType::Tcsh
    } else if has_infix(s, "csh"@) {
        ShellType::Csh
    } else if has_infix(s, "ksh"@) {
        ShellType::Ksh
    } else if has_infix(s, "dash"@) {
        ShellType::Dash
    } else if has_infix(s, "mksh"@) {
        ShellType::Mksh
    } else if has_infix(s, "yash"@) {
        ShellType::Yash
    } else if has_infix(s, "osh"@) {
        ShellType::Osh
    } else if has_infix(s, "sh"@) {
        ShellType::Sh
    } else {
        ShellType::Bash
    }
}

fn mentions(s: &Vec<char>, name: &str) -> (r: bool)
    ensures
        r == has_infix(s@, name@),
{
    let p = chars_of(name);
    contains_seq(s, &p)
}

/// The dialect named by a shell-identifying string such as the value of
/// `SHELL`.
pub fn detect_shell(shell: &str) -> (r: ShellType)
    ensures
        r == detected(shell@),
{
    let s = chars_of(shell);
    if mentions(&s, "zsh") {
        ShellType::Zsh
    } else if mentions(&s, "fish") {
        ShellType::Fish
    } else if mentions(&s, "tcsh") {
        ShellType::Tcsh
    } else if mentions(&s, "csh") {
        ShellType::Csh
    } else if mentions(&s, "ksh") {
        ShellType::Ksh
    } else if mentions(&s, "dash") {
        ShellType::Dash
    } else if mentions(&s, "mksh") {
        ShellType::Mksh
    } else if mentions(&s, "yash") {
        ShellType::Yash
    } else if mentions(&s, "osh") {
        ShellType::Osh
    } else if mentions(&s, "sh") {
        ShellType::Sh
    } else {
        ShellType::Bash
    }
}

/// How a dialect writes its history file.
#[derive(Clone, Copy, Debug, PartialEq, Eq, Structural)]
pub enum HistoryFormat {
    /// One command per line, no times.
    Plain,
    /// One command per line, no times; times are inferred from the file's
    /// modification time.
    PlainInferred,
    /// `: <epoch>:<duration>;<command>` lines.
    Timestamped,
    /// `<epoch>\t<command>` lines.
    TabSeparated,
    /// `- cmd:` / `when:` blocks.
    Structured,
}

pub open spec fn format_spec(shell: ShellType) -> HistoryFormat {
    match shell {
        ShellType::Bash | ShellType::Dash | ShellType::Sh => HistoryFormat::Plain,
        ShellType::Zsh => HistoryFormat::Timestamped,
        ShellType::Fish => HistoryFormat::Structured,
        ShellType::Tcsh => HistoryFormat::TabSeparated,
        ShellType::Csh | ShellType::Ksh | ShellType::Mksh | ShellType::Yash | ShellType::Osh =>
            HistoryFormat::PlainInferred,
    }
}

pub open spec fn history_file_spec(shell: ShellType) -> Seq<char> {
    match shell {
        ShellType::Bash | ShellType::Dash | ShellType::Sh => ".bash_history"@,
        ShellType::Zsh => ".zsh_history"@,
        ShellType::Fish => ".local/share/fish/fish_history"@,
        ShellType::Csh | ShellType::Tcsh => ".history"@,
        ShellType::Ksh => ".sh_history"@,
        ShellType::Mksh => ".mksh_history"@,
        ShellType::Yash => ".yash_history"@,
        ShellType::Osh => ".osh_history"@,
    }
}

impl ShellType {
    /// The format of this dialect's history file.
    pub fn format(&self) -> (r: HistoryFormat)
        ensures
            r == format_spec(*self),
    {
        match self {
            ShellType::Bash | ShellType::Dash | ShellType::Sh => HistoryFormat::Plain,
            ShellType::Zsh => HistoryFormat::Timestamped,
            ShellType::Fish => HistoryFormat::Structured,
            ShellType::Tcsh => HistoryFormat::TabSeparated,
            ShellType::Csh | ShellType::Ksh | ShellType::Mksh | ShellType::Yash | ShellType::Osh =>
                HistoryFormat::PlainInferred,
        }
    }

    /// The path of this dialect's history file, relative to the home
    /// directory.
    pub fn history_file(&self) -> (r: &'static str)
        ensures
            r@ == history_file_spec(*self),
    {
        match self {
            ShellType::Bash | ShellType::Dash | ShellType::Sh => ".bash_history",
            ShellType::Zsh => ".zsh_history",
            ShellType::Fish => ".local/share/fish/fish_history",
            ShellType::Csh | ShellType::Tcsh => ".history",
            ShellType::Ksh => ".sh_history",
            ShellType::Mksh => ".mksh_history",
            ShellType::Yash => ".yash_history",
            ShellType::Osh => ".osh_history",
        }
    }
}

} // verus!
