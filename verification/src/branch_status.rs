//! Local tracking information of branches; never fetches or assumes an
//! `origin/main` upstream.
use vstd::prelude::*;
use vstd::string::StringExecFns;
use crate::text::{chars_of, decimal, push_char, push_decimal};

verus! {

/// How a local branch stands against its configured upstream.
#[derive(Clone, Debug)]
pub enum BranchStatus {
    Tracking { upstream: String, ahead: usize, behind: usize },
    NoUpstream,
    Unavailable,
}

impl PartialEq for BranchStatus {
    fn eq(&self, other: &Self) -> (r: bool) {
        match (self, other) {
            (
                BranchStatus::Tracking { upstream: u1, ahead: a1, behind: b1 },
                BranchStatus::Tracking { upstream: u2, ahead: a2, behind: b2 },
            ) => *u1 == *u2 && *a1 == *a2 && *b1 == *b2,
            (BranchStatus::NoUpstream, BranchStatus::NoUpstream) => true,
            (BranchStatus::Unavailable, BranchStatus::Unavailable) => true,
            _ => false,
        }
    }
}

impl vstd::std_specs::cmp::PartialEqSpecImpl for BranchStatus {
    open spec fn obeys_eq_spec() -> bool {
        true
    }

    open spec fn eq_spec(&self, other: &BranchStatus) -> bool {
        match (*self, *other) {
            (
                BranchStatus::Tracking { upstream: u1, ahead: a1, behind: b1 },
                BranchStatus::Tracking { upstream: u2, ahead: a2, behind: b2 },
            ) => u1@ == u2@ && a1 == a2 && b1 == b2,
            (BranchStatus::NoUpstream, BranchStatus::NoUpstream) => true,
            (BranchStatus::Unavailable, BranchStatus::Unavailable) => true,
            _ => false,
        }
    }
}

pub const TOOLTIP_TRACKING_TAIL: &'static str = "\nCompared with the last fetched remote state.";

pub const TOOLTIP_NO_UPSTREAM: &'static str = "No remote upstream configured for this branch.";

pub const TOOLTIP_UNAVAILABLE: &'static str = "Remote tracking status unavailable. The upstream may have been deleted or not fetched yet.";

/// The badge text: `✓` when level with the upstream, otherwise `↑{ahead}`
/// and `↓{behind}` for the sides that are not zero, joined by a space; `—`
/// without an upstream and `?` when the status could not be read.
pub open spec fn label_text(status: BranchStatus) -> Seq<char> {
    match status {
        BranchStatus::Tracking { ahead, behind, .. } => {
            if ahead == 0 && behind == 0 {
                seq!['✓']
            } else if behind == 0 {
                seq!['↑'] + decimal(ahead as nat)
            } else if ahead == 0 {
                seq!['↓'] + decimal(behind as nat)
            } else {
                seq!['↑'] + decimal(ahead as nat) + seq![' ', '↓'] + decimal(behind as nat)
            }
        },
        BranchStatus::NoUpstream => seq!['—'],
        BranchStatus::Unavailable => seq!['?'],
    }
}

/// The hover text of the badge.
pub open spec fn tooltip_text(status: BranchStatus) -> Seq<char> {
    match status {
        BranchStatus::Tracking { upstream, ahead, behind } => decimal(ahead as nat)
            + " commits ahead · "@ + decimal(behind as nat) + " commits behind "@ + upstream@
            + TOOLTIP_TRACKING_TAIL@,
        BranchStatus::NoUpstream => TOOLTIP_NO_UPSTREAM@,
        BranchStatus::Unavailable => TOOLTIP_UNAVAILABLE@,
    }
}

impl BranchStatus {
    pub fn label(&self) -> (s: String)
        ensures
            s@ == label_text(*self),
    {
        let mut s = String::new();
        match self {
            BranchStatus::Tracking { ahead, behind, .. } => {
                if *ahead == 0 && *behind == 0 {
                    push_char(&mut s, '✓');
                } else {
                    if *ahead > 0 {
                        push_char(&mut s, '↑');
                        push_decimal(&mut s, *ahead);
                    }
                    if *behind > 0 {
                        if *ahead > 0 {
                            push_char(&mut s, ' ');
                        }
                        push_char(&mut s, '↓');
                        push_decimal(&mut s, *behind);
                    }
                }
            },
            BranchStatus::NoUpstream => {
                push_char(&mut s, '—');
            },
            BranchStatus::Unavailable => {
                push_char(&mut s, '?');
            },
        }
        assert(s@ =~= label_text(*self));
        s
    }

    pub fn tooltip(&self) -> (s: String)
        ensures
            s@ == tooltip_text(*self),
    {
        let mut s = String::new();
        match self {
            BranchStatus::Tracking { upstream, ahead, behind } => {
                push_decimal(&mut s, *ahead);
                s.append(" commits ahead · ");
                push_decimal(&mut s, *behind);
                s.append(" commits behind ");
                s.append(upstream.as_str());
                s.append(TOOLTIP_TRACKING_TAIL);
            },
            BranchStatus::NoUpstream => {
                s.append(TOOLTIP_NO_UPSTREAM);
            },
            BranchStatus::Unavailable => {
                s.append(TOOLTIP_UNAVAILABLE);
            },
        }
        assert(s@ =~= tooltip_text(*self));
        s
    }
}

/// Whether a branch has an upstream to compare with: both `branch.<name>.remote`
/// and `branch.<name>.merge` are set, and the remote is not `.` (the local
/// repository itself).
pub open spec fn upstream_configured(remote: Option<Seq<char>>, merge: Option<Seq<char>>) -> bool {
    &&& remote is Some
    &&& merge is Some
    &&& remote.unwrap() != seq!['.']
}

/// The view of an optional string.
pub open spec fn opt_view(s: Option<String>) -> Option<Seq<char>> {
    match s {
        Some(t) => Some(t@),
        None => None,
    }
}

pub fn has_upstream(remote: &Option<String>, merge: &Option<String>) -> (b: bool)
    ensures
        b == upstream_configured(opt_view(*remote), opt_view(*merge)),
{
    match (remote, merge) {
        (Some(r), Some(_)) => {
            let cs = chars_of(r.as_str());
            let is_dot = cs.len() == 1 && cs[0] == '.';
            assert(is_dot ==> cs@ =~= seq!['.']);
            !is_dot
        },
        _ => false,
    }
}

/// The status of one branch from what was read of the repository: whether
/// its configuration could be read, the configured remote and merge
/// reference, and the upstream's name with the ahead and behind counts when
/// they could be computed. The counts are only needed when an upstream is
/// configured.
pub fn branch_status(
    config_read: bool,
    remote: &Option<String>,
    merge: &Option<String>,
    tracking: Option<(String, usize, usize)>,
) -> (status: BranchStatus)
    ensures
        !config_read ==> status is Unavailable,
        config_read && !upstream_configured(opt_view(*remote), opt_view(*merge))
            ==> status is NoUpstream,
        config_read && upstream_configured(opt_view(*remote), opt_view(*merge)) ==> match tracking {
            Some((u, a, b)) => status matches BranchStatus::Tracking { upstream, ahead, behind }
                && upstream@ == u@ && ahead == a && behind == b,
            None => status is Unavailable,
        },
{
    if !config_read {
        return BranchStatus::Unavailable;
    }
    if !has_upstream(remote, merge) {
        return BranchStatus::NoUpstream;
    }
    match tracking {
        Some((upstream, ahead, behind)) => BranchStatus::Tracking { upstream, ahead, behind },
        None => BranchStatus::Unavailable,
    }
}

} // verus!
