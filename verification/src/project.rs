//! The `Project` entity: an immutable record describing one detected
//! project directory.

use vstd::prelude::*;
use vstd::string::StringExecFns;

verus! {

/// Mathematical model of a [`Project`]: every field as a sequence of
/// characters.
pub struct ProjectModel {
    pub path: Seq<char>,
    pub name: Seq<char>,
    pub marker: Seq<char>,
}

/// A project found by the scanner.
///
/// `path` is the full path of the directory and is the identity of the
/// project: the merge step keeps at most one project per path.  `name` is
/// the final path component and is only a display label.  `marker` is the
/// marker name whose presence identified the directory as a project.
#[derive(Debug, PartialEq, Eq, Hash)]
pub struct Project {
    pub path: String,
    pub name: String,
    pub marker: String,
}

impl Clone for Project {
    fn clone(&self) -> (r: Self)
        ensures
            r == *self,
    {
        Project { path: self.path.clone(), name: self.name.clone(), marker: self.marker.clone() }
    }
}

impl View for Project {
    type V = ProjectModel;

    open spec fn view(&self) -> ProjectModel {
        ProjectModel { path: self.path@, name: self.name@, marker: self.marker@ }
    }
}

impl DeepView for Project {
    type V = ProjectModel;

    open spec fn deep_view(&self) -> ProjectModel {
        self.view()
    }
}

impl Project {
    /// The label shown in a selection list: the name followed by the path
    /// in parentheses.
    pub fn display_string(&self) -> (r: String)
        ensures
            r@ == self.name@ + " ("@ + self.path@ + ")"@,
    {
        let mut s = self.name.clone();
        s.append(" (");
        s.append(self.path.as_str());
        s.append(")");
        s
    }

    /// The short label: the path alone.
    pub fn short_display(&self) -> (r: String)
        ensures
            r@ == self.path@,
    {
        self.path.clone()
    }
}

} // verus!
