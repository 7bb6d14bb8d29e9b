//! Copying attribution notes between commits: the short form of a commit
//! name and the decision of what a copy request does.
use vstd::prelude::*;
use vstd::string::StringSliceAdditionalSpecFns;
use vstd::utf8::{encode_utf8, encode_utf8_valid_utf8, is_char_boundary};

verus! {

/// Arguments of a copy of attribution from one commit to another.
#[derive(Debug)]
pub struct CopyNotesArgs {
    /// Commit name before the rewrite.
    pub source: String,
    /// Commit name after the rewrite.
    pub target: String,
    /// Report what would be copied without copying.
    pub dry_run: bool,
}

/// Number of bytes a short commit name keeps at most.
pub const SHORT_LEN: usize = 8;

/// `r` is the short form of `s`: the longest prefix of `s` that ends on a
/// character boundary and holds at most `SHORT_LEN` bytes.
pub open spec fn is_short_form(s: Seq<char>, r: Seq<char>) -> bool {
    let b = encode_utf8(s);
    let k = encode_utf8(r).len() as int;
    let limit: int = if b.len() < SHORT_LEN {
        b.len() as int
    } else {
        SHORT_LEN as int
    };
    &&& k <= limit
    &&& encode_utf8(r) == b.subrange(0, k)
    &&& forall|j: int| k < j <= limit ==> !is_char_boundary(b, j)
}

/// The short form of a commit name, for messages.
pub fn short_sha(s: &str) -> (r: &str)
    ensures
        is_short_form(s@, r@),
{
    proof {
        encode_utf8_valid_utf8(s@);
    }
    let total: usize = s.as_bytes().len();
    let n: usize = if total < SHORT_LEN {
        total
    } else {
        SHORT_LEN
    };
    let mut k: usize = n;
    while k > 0 && !s.is_char_boundary(k)
        invariant
            k <= n,
            n <= s.spec_bytes().len(),
            vstd::utf8::valid_utf8(s.spec_bytes()),
            forall|j: int| k < j <= n ==> !is_char_boundary(s.spec_bytes(), j),
        decreases k,
    {
        k = k - 1;
    }
    let r = s.split_at(k).0;
    r
}

/// What a copy request does.
#[derive(Debug)]
pub enum CopyPlan {
    /// The source has no record: nothing to copy.
    NoAttribution,
    /// Report the copy without making it.
    DryRun { source_short: String, target_short: String },
    /// Copy the record.
    Copy { source_short: String, target_short: String },
}

/// Decides a copy request, given whether its source commit has a record.
pub fn plan_copy(args: &CopyNotesArgs, source_has_record: bool) -> (r: CopyPlan)
    ensures
        !source_has_record ==> r is NoAttribution,
        source_has_record && args.dry_run ==> r is DryRun,
        source_has_record && !args.dry_run ==> r is Copy,
        r matches CopyPlan::DryRun { source_short, target_short } ==> is_short_form(
            args.source@,
            source_short@,
        ) && is_short_form(args.target@, target_short@),
        r matches CopyPlan::Copy { source_short, target_short } ==> is_short_form(
            args.source@,
            source_short@,
        ) && is_short_form(args.target@, target_short@),
{
    if !source_has_record {
        return CopyPlan::NoAttribution;
    }
    let source_short = short_sha(args.source.as_str()).to_owned();
    let target_short = short_sha(args.target.as_str()).to_owned();
    if args.dry_run {
        CopyPlan::DryRun { source_short, target_short }
    } else {
        CopyPlan::Copy { source_short, target_short }
    }
}

} // verus!
