//! Identity and timestamp configuration, handed in by the caller.

use vstd::prelude::*;
use vstd::string::StringExecFns;

verus! {

/// Who commits, and when.  The surrounding program resolves names, addresses
/// and the clock once and passes them in; the core never reads the
/// environment itself.
#[derive(Debug)]
pub struct Config {
    pub author_name: String,
    pub author_email: String,
    pub committer_name: String,
    pub committer_email: String,
    pub commit_date: String,
}

/// One identity line: the name, a literal `,,, <`, the address, `> `, and
/// the date.
pub open spec fn identity_line(name: Seq<char>, email: Seq<char>, date: Seq<char>) -> Seq<char> {
    name + ",,, <"@ + email + "> "@ + date
}

impl Config {
    /// The author identity line, as a value.
    pub open spec fn spec_author_info(&self) -> Seq<char> {
        identity_line(self.author_name@, self.author_email@, self.commit_date@)
    }

    /// The committer identity line, as a value.
    pub open spec fn spec_committer_info(&self) -> Seq<char> {
        identity_line(self.committer_name@, self.committer_email@, self.commit_date@)
    }

    /// Renders the author identity line.
    pub fn author_info(&self) -> (r: String)
        ensures
            r@ == self.spec_author_info(),
    {
        let mut out = String::from_str(self.author_name.as_str());
        out.append(",,, <");
        out.append(self.author_email.as_str());
        out.append("> ");
        out.append(self.commit_date.as_str());
        proof {
            assert(out@ =~= self.spec_author_info());
        }
        out
    }

    /// Renders the committer identity line.
    pub fn committer_info(&self) -> (r: String)
        ensures
            r@ == self.spec_committer_info(),
    {
        let mut out = String::from_str(self.committer_name.as_str());
        out.append(",,, <");
        out.append(self.committer_email.as_str());
        out.append("> ");
        out.append(self.commit_date.as_str());
        proof {
            assert(out@ =~= self.spec_committer_info());
        }
        out
    }
}

} // verus!
