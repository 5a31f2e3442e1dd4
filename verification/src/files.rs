//! Naming and recognizing plan files. The file system itself is handled by
//! callers; this module only computes and tests names.

use crate::date::{pad4, Date};
use crate::text::{append_2digits, has_suffix, pad2, str_has_suffix};
use vstd::prelude::*;

verus! {

/// The directory that holds the plan files, by its path.
#[derive(Debug)]
pub struct PlanDirectory {
    path: String,
}

impl View for PlanDirectory {
    type V = Seq<char>;

    closed spec fn view(&self) -> Seq<char> {
        self.path@
    }
}

/// The file name a plan for a date carries: `YYYY.MM.DD.plan.md`.
pub open spec fn plan_file_name_spec(date: Date) -> Seq<char> {
    pad4(date.year as int) + "."@ + pad2(date.month as int) + "."@ + pad2(date.day as int) + "."@
        + "plan.md"@
}

impl PlanDirectory {
    /// Wraps the path of the directory that holds the plan files.
    pub fn new(path: String) -> (r: PlanDirectory)
        ensures
            r@ == path@,
    {
        PlanDirectory { path }
    }

    /// The directory's path.
    pub fn path(&self) -> (r: &str)
        ensures
            r@ == self@,
    {
        self.path.as_str()
    }

    /// The name of the file that holds the plan for `date`.
    pub fn plan_file_name(date: Date) -> (r: String)
        requires
            date.wf(),
        ensures
            r@ == plan_file_name_spec(date),
    {
        let mut out = String::new();
        append_2digits(&mut out, (date.year / 100) as u32);
        append_2digits(&mut out, (date.year % 100) as u32);
        out.append(".");
        append_2digits(&mut out, date.month as u32);
        out.append(".");
        append_2digits(&mut out, date.day as u32);
        out.append(".");
        out.append("plan.md");
        proof {
            assert(out@ =~= plan_file_name_spec(date));
        }
        out
    }

    /// Whether a file name is a plan file's: it ends in `plan.md`.
    pub fn is_plan_file(name: &str) -> (r: bool)
        ensures
            r == has_suffix(name@, "plan.md"@),
    {
        str_has_suffix(name, "plan.md")
    }
}

} // verus!
