//! How failures are reported: a user error is shown as it is and exits with
//! status 1; any other failure is shown with its chain of causes and exits
//! with status 2.
use vstd::prelude::*;

use crate::text::{owned, push_str, str_eq};

verus! {

/// A failure caused by the user's input, shown without further context.
#[derive(Debug, Clone)]
pub struct UserError {
    pub message: String,
}

impl UserError {
    pub fn new(message: String) -> (r: UserError)
        ensures
            r.message@ == message@,
    {
        UserError { message }
    }
}

/// A failure: a user error, or another error given by the messages of its
/// chain of causes, outermost first.
#[derive(Debug, Clone)]
pub enum AppError {
    User(UserError),
    Other(Vec<String>),
}

pub enum AppErrorView {
    User(Seq<char>),
    Other(Seq<Seq<char>>),
}

impl View for AppError {
    type V = AppErrorView;

    open spec fn view(&self) -> AppErrorView {
        match self {
            AppError::User(u) => AppErrorView::User(u.message@),
            AppError::Other(chain) => AppErrorView::Other(chain@.map_values(|c: String| c@)),
        }
    }
}

/// The causes joined by `": "`, skipping empty ones and ones equal to the
/// message built so far.
pub open spec fn chain_message(chain: Seq<Seq<char>>, n: int) -> Seq<char>
    decreases n,
{
    if n <= 1 {
        chain[0]
    } else {
        let so_far = chain_message(chain, n - 1);
        let cause = chain[n - 1];
        if cause.len() != 0 && cause != so_far {
            so_far + ": "@ + cause
        } else {
            so_far
        }
    }
}

pub open spec fn error_text(e: AppErrorView) -> Seq<char> {
    match e {
        AppErrorView::User(m) => m,
        AppErrorView::Other(chain) => if chain.len() == 0 {
            "internal error"@
        } else {
            chain_message(chain, chain.len() as int)
        },
    }
}

pub open spec fn error_status(e: AppErrorView) -> u8 {
    match e {
        AppErrorView::User(_) => 1,
        AppErrorView::Other(_) => 2,
    }
}

/// A user error with this message.
pub fn user_error(message: String) -> (r: AppError)
    ensures
        r@ == AppErrorView::User(message@),
{
    AppError::User(UserError::new(message))
}

/// The process exit status for an error: 1 for a user error, 2 otherwise.
pub fn exit_code(error: &AppError) -> (r: u8)
    ensures
        r == error_status(error@),
{
    match error {
        AppError::User(_) => 1,
        AppError::Other(_) => 2,
    }
}

/// The text shown for an error.
pub fn format_error(error: &AppError) -> (r: String)
    ensures
        r@ == error_text(error@),
{
    match error {
        AppError::User(u) => owned(u.message.as_str()),
        AppError::Other(chain) => {
            let ghost cs = chain@.map_values(|c: String| c@);
            if chain.len() == 0 {
                return owned("internal error");
            }
            let mut message = owned(chain[0].as_str());
            let mut i: usize = 1;
            while i < chain.len()
                invariant
                    1 <= i <= chain.len(),
                    cs == chain@.map_values(|c: String| c@),
                    message@ == chain_message(cs, i as int),
                decreases chain.len() - i,
            {
                let cause = &chain[i];
                assert(cs[i as int] == cause@);
                proof {
                    reveal_strlit("");
                    if cause@.len() == 0 {
                        assert(cause@ =~= ""@);
                    }
                }
                if !str_eq(cause.as_str(), "") && !str_eq(cause.as_str(), message.as_str()) {
                    push_str(&mut message, ": ");
                    push_str(&mut message, cause.as_str());
                }
                i = i + 1;
            }
            message
        },
    }
}

} // verus!
